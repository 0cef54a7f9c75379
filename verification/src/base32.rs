//! Lower-case RFC 4648 base32 without padding, as used by the `b` multibase prefix.
//!
//! Symbols are `a`..`z` for the values 0..25 and `2`..`7` for 26..31. Input is split into
//! groups of five bytes; each group becomes eight symbols, and a final group of `n < 5` bytes
//! becomes `(8 * n + 4) / 5` symbols. Decoding is canonical: it refuses symbols outside the
//! alphabet, final groups of 1, 3 or 6 symbols, and final groups whose unused bits are not zero.
use vstd::prelude::*;

verus! {

/// The ASCII symbol for a five-bit value.
pub open spec fn spec_symbol(v: u8) -> u8 {
    if v < 26 {
        (0x61 + v) as u8
    } else {
        (0x32 + (v - 26)) as u8
    }
}

/// The five-bit value of an ASCII symbol, if it belongs to the alphabet.
pub open spec fn spec_symbol_value(c: u8) -> Option<u8> {
    if 0x61 <= c && c <= 0x7a {
        Some((c - 0x61) as u8)
    } else if 0x32 <= c && c <= 0x37 {
        Some((c - 0x32 + 26) as u8)
    } else {
        None
    }
}

/// The element at `i`, or zero past the end.
pub open spec fn at(s: Seq<u8>, i: int) -> u8 {
    if 0 <= i < s.len() {
        s[i]
    } else {
        0
    }
}

/// Five bytes as a 40-bit big-endian number.
pub open spec fn pack_bytes(b0: u8, b1: u8, b2: u8, b3: u8, b4: u8) -> u64 {
    ((b0 as u64) << 32u64) | ((b1 as u64) << 24u64) | ((b2 as u64) << 16u64) | ((b3 as u64) << 8u64)
        | (b4 as u64)
}

/// Eight five-bit values as a 40-bit big-endian number.
pub open spec fn pack_symbols(c0: u8, c1: u8, c2: u8, c3: u8, c4: u8, c5: u8, c6: u8, c7: u8) -> u64 {
    ((c0 as u64) << 35u64) | ((c1 as u64) << 30u64) | ((c2 as u64) << 25u64) | ((c3 as u64) << 20u64)
        | ((c4 as u64) << 15u64) | ((c5 as u64) << 10u64) | ((c6 as u64) << 5u64) | (c7 as u64)
}

/// The group value of up to five bytes, missing bytes taken as zero.
pub open spec fn group_value(b: Seq<u8>) -> u64 {
    pack_bytes(at(b, 0), at(b, 1), at(b, 2), at(b, 3), at(b, 4))
}

/// The group value of up to eight five-bit values, missing ones taken as zero.
pub open spec fn symbols_value(c: Seq<u8>) -> u64 {
    pack_symbols(at(c, 0), at(c, 1), at(c, 2), at(c, 3), at(c, 4), at(c, 5), at(c, 6), at(c, 7))
}

/// The `i`-th five-bit value (from the most significant end) of a 40-bit group value.
pub open spec fn five_bits(v: u64, i: int) -> u8 {
    if i == 0 {
        ((v >> 35u64) & 31) as u8
    } else if i == 1 {
        ((v >> 30u64) & 31) as u8
    } else if i == 2 {
        ((v >> 25u64) & 31) as u8
    } else if i == 3 {
        ((v >> 20u64) & 31) as u8
    } else if i == 4 {
        ((v >> 15u64) & 31) as u8
    } else if i == 5 {
        ((v >> 10u64) & 31) as u8
    } else if i == 6 {
        ((v >> 5u64) & 31) as u8
    } else {
        (v & 31) as u8
    }
}

/// The `j`-th byte (from the most significant end) of a 40-bit group value.
pub open spec fn byte_of(v: u64, j: int) -> u8 {
    if j == 0 {
        ((v >> 32u64) & 0xff) as u8
    } else if j == 1 {
        ((v >> 24u64) & 0xff) as u8
    } else if j == 2 {
        ((v >> 16u64) & 0xff) as u8
    } else if j == 3 {
        ((v >> 8u64) & 0xff) as u8
    } else {
        (v & 0xff) as u8
    }
}

/// The number of symbols that `n` bytes (at most five) encode to.
pub open spec fn symbols_for_bytes(n: int) -> int {
    (8 * n + 4) / 5
}

/// The number of bytes that `r` symbols (at most eight) decode to.
pub open spec fn bytes_for_symbols(r: int) -> int {
    (5 * r) / 8
}

/// Whether a final group of `r` symbols is a length that some byte group encodes to.
pub open spec fn valid_group_len(r: int) -> bool {
    r == 2 || r == 4 || r == 5 || r == 7 || r == 8
}

/// The bits of a group value below the `n` bytes it carries.
pub open spec fn unused_bits(v: u64, n: int) -> u64 {
    if n == 1 {
        v & 0xffff_ffff
    } else if n == 2 {
        v & 0xff_ffff
    } else if n == 3 {
        v & 0xffff
    } else if n == 4 {
        v & 0xff
    } else {
        0
    }
}

/// Symbols of one group of one to five bytes.
pub open spec fn encode_group(b: Seq<u8>) -> Seq<u8> {
    Seq::new(
        symbols_for_bytes(b.len() as int) as nat,
        |i: int| spec_symbol(five_bits(group_value(b), i)),
    )
}

/// The base32 encoding of a byte sequence, as ASCII bytes.
pub open spec fn spec_encode(b: Seq<u8>) -> Seq<u8>
    decreases b.len(),
{
    if b.len() == 0 {
        Seq::empty()
    } else if b.len() <= 5 {
        encode_group(b)
    } else {
        encode_group(b.take(5)) + spec_encode(b.skip(5))
    }
}

/// Whether every symbol of `c` belongs to the alphabet.
pub open spec fn all_symbols(c: Seq<u8>) -> bool {
    forall|i: int| 0 <= i < c.len() ==> (#[trigger] spec_symbol_value(c[i])) is Some
}

/// The five-bit values of symbols that all belong to the alphabet.
pub open spec fn symbol_values(c: Seq<u8>) -> Seq<u8> {
    Seq::new(c.len(), |i: int| spec_symbol_value(c[i])->0)
}

/// The bytes of one group of one to eight symbols, if it is canonical.
pub open spec fn decode_group(c: Seq<u8>) -> Option<Seq<u8>> {
    let n = bytes_for_symbols(c.len() as int);
    let v = symbols_value(symbol_values(c));
    if !valid_group_len(c.len() as int) || !all_symbols(c) || unused_bits(v, n) != 0 {
        None
    } else {
        Some(Seq::new(n as nat, |j: int| byte_of(v, j)))
    }
}

/// The bytes that a base32 text (as ASCII bytes) decodes to, if it is canonical.
pub open spec fn spec_decode(c: Seq<u8>) -> Option<Seq<u8>>
    decreases c.len(),
{
    if c.len() == 0 {
        Some(Seq::empty())
    } else if c.len() <= 8 {
        decode_group(c)
    } else {
        match decode_group(c.take(8)) {
            Some(head) => match spec_decode(c.skip(8)) {
                Some(tail) => Some(head + tail),
                None => None,
            },
            None => None,
        }
    }
}

// ---------------------------------------------------------------------------------------------
// Bit-level facts about one group.
proof fn lemma_bytes_of_pack(b0: u8, b1: u8, b2: u8, b3: u8, b4: u8) by (bit_vector)
    ensures
        ({
            let v = pack_bytes(b0, b1, b2, b3, b4);
            &&& ((v >> 32u64) & 0xff) as u8 == b0
            &&& ((v >> 24u64) & 0xff) as u8 == b1
            &&& ((v >> 16u64) & 0xff) as u8 == b2
            &&& ((v >> 8u64) & 0xff) as u8 == b3
            &&& (v & 0xff) as u8 == b4
            &&& v < 0x100_0000_0000
        }),
{
}

proof fn lemma_symbols_of_pack(c0: u8, c1: u8, c2: u8, c3: u8, c4: u8, c5: u8, c6: u8, c7: u8) by (bit_vector)
    requires
        c0 < 32,
        c1 < 32,
        c2 < 32,
        c3 < 32,
        c4 < 32,
        c5 < 32,
        c6 < 32,
        c7 < 32,
    ensures
        ({
            let v = pack_symbols(c0, c1, c2, c3, c4, c5, c6, c7);
            &&& ((v >> 35u64) & 31) as u8 == c0
            &&& ((v >> 30u64) & 31) as u8 == c1
            &&& ((v >> 25u64) & 31) as u8 == c2
            &&& ((v >> 20u64) & 31) as u8 == c3
            &&& ((v >> 15u64) & 31) as u8 == c4
            &&& ((v >> 10u64) & 31) as u8 == c5
            &&& ((v >> 5u64) & 31) as u8 == c6
            &&& (v & 31) as u8 == c7
            &&& v < 0x100_0000_0000
        }),
{
}

/// Re-packing the symbols of a byte group gives the group value back, for each group length.
proof fn lemma_encode_group_bits(b0: u8, b1: u8, b2: u8, b3: u8, b4: u8) by (bit_vector)
    ensures
        ({
            let v1 = pack_bytes(b0, 0, 0, 0, 0);
            pack_symbols(
                ((v1 >> 35u64) & 31) as u8,
                ((v1 >> 30u64) & 31) as u8,
                0,
                0,
                0,
                0,
                0,
                0,
            ) == v1 && v1 & 0xffff_ffff == 0
        }),
        ({
            let v2 = pack_bytes(b0, b1, 0, 0, 0);
            pack_symbols(
                ((v2 >> 35u64) & 31) as u8,
                ((v2 >> 30u64) & 31) as u8,
                ((v2 >> 25u64) & 31) as u8,
                ((v2 >> 20u64) & 31) as u8,
                0,
                0,
                0,
                0,
            ) == v2 && v2 & 0xff_ffff == 0
        }),
        ({
            let v3 = pack_bytes(b0, b1, b2, 0, 0);
            pack_symbols(
                ((v3 >> 35u64) & 31) as u8,
                ((v3 >> 30u64) & 31) as u8,
                ((v3 >> 25u64) & 31) as u8,
                ((v3 >> 20u64) & 31) as u8,
                ((v3 >> 15u64) & 31) as u8,
                0,
                0,
                0,
            ) == v3 && v3 & 0xffff == 0
        }),
        ({
            let v4 = pack_bytes(b0, b1, b2, b3, 0);
            pack_symbols(
                ((v4 >> 35u64) & 31) as u8,
                ((v4 >> 30u64) & 31) as u8,
                ((v4 >> 25u64) & 31) as u8,
                ((v4 >> 20u64) & 31) as u8,
                ((v4 >> 15u64) & 31) as u8,
                ((v4 >> 10u64) & 31) as u8,
                ((v4 >> 5u64) & 31) as u8,
                0,
            ) == v4 && v4 & 0xff == 0
        }),
        ({
            let v5 = pack_bytes(b0, b1, b2, b3, b4);
            pack_symbols(
                ((v5 >> 35u64) & 31) as u8,
                ((v5 >> 30u64) & 31) as u8,
                ((v5 >> 25u64) & 31) as u8,
                ((v5 >> 20u64) & 31) as u8,
                ((v5 >> 15u64) & 31) as u8,
                ((v5 >> 10u64) & 31) as u8,
                ((v5 >> 5u64) & 31) as u8,
                (v5 & 31) as u8,
            ) == v5
        }),
{
}

/// Re-packing the bytes of a canonical symbol group gives the group value back.
proof fn lemma_decode_group_bits(c0: u8, c1: u8, c2: u8, c3: u8, c4: u8, c5: u8, c6: u8, c7: u8) by (bit_vector)
    requires
        c0 < 32,
        c1 < 32,
        c2 < 32,
        c3 < 32,
        c4 < 32,
        c5 < 32,
        c6 < 32,
        c7 < 32,
    ensures
        ({
            let v = pack_symbols(c0, c1, 0, 0, 0, 0, 0, 0);
            v & 0xffff_ffff == 0 ==> pack_bytes(((v >> 32u64) & 0xff) as u8, 0, 0, 0, 0) == v
        }),
        ({
            let v = pack_symbols(c0, c1, c2, c3, 0, 0, 0, 0);
            v & 0xff_ffff == 0 ==> pack_bytes(
                ((v >> 32u64) & 0xff) as u8,
                ((v >> 24u64) & 0xff) as u8,
                0,
                0,
                0,
            ) == v
        }),
        ({
            let v = pack_symbols(c0, c1, c2, c3, c4, 0, 0, 0);
            v & 0xffff == 0 ==> pack_bytes(
                ((v >> 32u64) & 0xff) as u8,
                ((v >> 24u64) & 0xff) as u8,
                ((v >> 16u64) & 0xff) as u8,
                0,
                0,
            ) == v
        }),
        ({
            let v = pack_symbols(c0, c1, c2, c3, c4, c5, c6, 0);
            v & 0xff == 0 ==> pack_bytes(
                ((v >> 32u64) & 0xff) as u8,
                ((v >> 24u64) & 0xff) as u8,
                ((v >> 16u64) & 0xff) as u8,
                ((v >> 8u64) & 0xff) as u8,
                0,
            ) == v
        }),
        ({
            let v = pack_symbols(c0, c1, c2, c3, c4, c5, c6, c7);
            pack_bytes(
                ((v >> 32u64) & 0xff) as u8,
                ((v >> 24u64) & 0xff) as u8,
                ((v >> 16u64) & 0xff) as u8,
                ((v >> 8u64) & 0xff) as u8,
                (v & 0xff) as u8,
            ) == v
        }),
{
}

proof fn lemma_five_bits_bound(v: u64) by (bit_vector)
    ensures
        ((v >> 35u64) & 31) < 32,
        ((v >> 30u64) & 31) < 32,
        ((v >> 25u64) & 31) < 32,
        ((v >> 20u64) & 31) < 32,
        ((v >> 15u64) & 31) < 32,
        ((v >> 10u64) & 31) < 32,
        ((v >> 5u64) & 31) < 32,
        (v & 31) < 32,
{
}

proof fn lemma_symbol_roundtrip(v: u8)
    requires
        v < 32,
    ensures
        spec_symbol_value(spec_symbol(v)) == Some(v),
{
}

proof fn lemma_symbol_value_roundtrip(c: u8)
    requires
        spec_symbol_value(c) is Some,
    ensures
        spec_symbol(spec_symbol_value(c)->0) == c,
        spec_symbol_value(c)->0 < 32,
{
}

/// Decoding the symbols of a group of one to five bytes gives the bytes back.
proof fn lemma_group_encode_decode(b: Seq<u8>)
    requires
        1 <= b.len() <= 5,
    ensures
        decode_group(encode_group(b)) == Some(b),
{
    let n = b.len() as int;
    let v = group_value(b);
    let c = encode_group(b);
    let k = symbols_for_bytes(n);
    lemma_five_bits_bound(v);
    lemma_bytes_of_pack(at(b, 0), at(b, 1), at(b, 2), at(b, 3), at(b, 4));
    lemma_encode_group_bits(at(b, 0), at(b, 1), at(b, 2), at(b, 3), at(b, 4));
    assert forall|i: int| 0 <= i < c.len() implies (#[trigger] spec_symbol_value(c[i])) is Some
        && spec_symbol_value(c[i])->0 == five_bits(v, i) by {
        lemma_symbol_roundtrip(five_bits(v, i));
    }
    let vals = symbol_values(c);
    assert(vals =~= Seq::new(k as nat, |i: int| five_bits(v, i)));
    assert(symbols_value(vals) == v);
    assert(bytes_for_symbols(k) == n);
    let out = Seq::new(n as nat, |j: int| byte_of(v, j));
    assert(out =~= b);
}

/// Encoding the bytes of a canonical group of symbols gives the symbols back.
proof fn lemma_group_decode_encode(c: Seq<u8>)
    requires
        1 <= c.len() <= 8,
        decode_group(c) is Some,
    ensures
        encode_group(decode_group(c)->0) == c,
        1 <= (decode_group(c)->0).len() <= 5,
        c.len() == 8 ==> (decode_group(c)->0).len() == 5,
{
    let r = c.len() as int;
    let n = bytes_for_symbols(r);
    let vals = symbol_values(c);
    assert forall|i: int| 0 <= i < r implies #[trigger] vals[i] < 32 && spec_symbol(vals[i]) == c[i] by {
        assert(spec_symbol_value(c[i]) is Some);
        lemma_symbol_value_roundtrip(c[i]);
    }
    let v = symbols_value(vals);
    let b = decode_group(c)->0;
    lemma_symbols_of_pack(at(vals, 0), at(vals, 1), at(vals, 2), at(vals, 3), at(vals, 4), at(vals, 5), at(vals, 6), at(vals, 7));
    lemma_decode_group_bits(at(vals, 0), at(vals, 1), at(vals, 2), at(vals, 3), at(vals, 4), at(vals, 5), at(vals, 6), at(vals, 7));
    assert(group_value(b) == v);
    assert(symbols_for_bytes(n) == r);
    assert(encode_group(b) =~= c);
}

/// Decoding a non-empty text gives non-empty bytes.
proof fn lemma_decode_nonempty(c: Seq<u8>)
    requires
        c.len() > 0,
        spec_decode(c) is Some,
    ensures
        (spec_decode(c)->0).len() > 0,
{
    if c.len() <= 8 {
        lemma_group_decode_encode(c);
    } else {
        lemma_group_decode_encode(c.take(8));
    }
}

/// Decoding the encoding of any byte sequence gives it back.
pub proof fn lemma_encode_decode(b: Seq<u8>)
    ensures
        spec_decode(spec_encode(b)) == Some(b),
    decreases b.len(),
{
    if b.len() == 0 {
    } else if b.len() <= 5 {
        lemma_group_encode_decode(b);
        let c = encode_group(b);
        assert(c.len() <= 8);
    } else {
        let head = encode_group(b.take(5));
        let tail = spec_encode(b.skip(5));
        lemma_encode_decode(b.skip(5));
        lemma_group_encode_decode(b.take(5));
        let c = head + tail;
        assert(head.len() == 8);
        assert(tail.len() > 0) by {
            if b.skip(5).len() <= 5 {
            } else {
            }
        }
        assert(c.take(8) =~= head);
        assert(c.skip(8) =~= tail);
        assert(b.take(5) + b.skip(5) =~= b);
    }
}

/// A text that decodes is exactly the encoding of what it decodes to: decoding is canonical.
pub proof fn lemma_decode_encode(c: Seq<u8>)
    requires
        spec_decode(c) is Some,
    ensures
        spec_encode(spec_decode(c)->0) == c,
    decreases c.len(),
{
    if c.len() == 0 {
    } else if c.len() <= 8 {
        lemma_group_decode_encode(c);
    } else {
        let head = decode_group(c.take(8))->0;
        let tail = spec_decode(c.skip(8))->0;
        lemma_group_decode_encode(c.take(8));
        lemma_decode_encode(c.skip(8));
        lemma_decode_nonempty(c.skip(8));
        let b = head + tail;
        assert(b.take(5) =~= head);
        assert(b.skip(5) =~= tail);
        assert(c.take(8) + c.skip(8) =~= c);
    }
}

// ---------------------------------------------------------------------------------------------
// Executable encoder and decoder.
fn symbol(v: u8) -> (c: u8)
    requires
        v < 32,
    ensures
        c == spec_symbol(v),
{
    if v < 26 {
        0x61 + v
    } else {
        0x32 + (v - 26)
    }
}

fn symbol_value(c: u8) -> (v: Option<u8>)
    ensures
        v == spec_symbol_value(c),
{
    if 0x61 <= c && c <= 0x7a {
        Some(c - 0x61)
    } else if 0x32 <= c && c <= 0x37 {
        Some(c - 0x32 + 26)
    } else {
        None
    }
}

fn five_bits_at(v: u64, i: usize) -> (r: u8)
    requires
        i < 8,
    ensures
        r == five_bits(v, i as int),
        r < 32,
{
    proof {
        lemma_five_bits_bound(v);
    }
    if i == 0 {
        ((v >> 35u64) & 31) as u8
    } else if i == 1 {
        ((v >> 30u64) & 31) as u8
    } else if i == 2 {
        ((v >> 25u64) & 31) as u8
    } else if i == 3 {
        ((v >> 20u64) & 31) as u8
    } else if i == 4 {
        ((v >> 15u64) & 31) as u8
    } else if i == 5 {
        ((v >> 10u64) & 31) as u8
    } else if i == 6 {
        ((v >> 5u64) & 31) as u8
    } else {
        (v & 31) as u8
    }
}

fn byte_at(v: u64, j: usize) -> (r: u8)
    requires
        j < 5,
    ensures
        r == byte_of(v, j as int),
{
    if j == 0 {
        ((v >> 32u64) & 0xff) as u8
    } else if j == 1 {
        ((v >> 24u64) & 0xff) as u8
    } else if j == 2 {
        ((v >> 16u64) & 0xff) as u8
    } else if j == 3 {
        ((v >> 8u64) & 0xff) as u8
    } else {
        (v & 0xff) as u8
    }
}

/// The element `input[start + i]` when `i < n`, else zero.
fn padded(input: &[u8], start: usize, n: usize, i: usize) -> (r: u8)
    requires
        start + n <= input.len(),
    ensures
        r == at(input@.subrange(start as int, start + n), i as int),
{
    if i < n {
        input[start + i]
    } else {
        0
    }
}

/// Appends the symbols of the group `input[start..start + n]`.
fn encode_group_into(input: &[u8], start: usize, n: usize, out: &mut Vec<u8>)
    requires
        1 <= n <= 5,
        start + n <= input.len(),
    ensures
        final(out)@ == old(out)@ + encode_group(input@.subrange(start as int, start + n)),
{
    let ghost g = input@.subrange(start as int, start + n);
    let b0 = padded(input, start, n, 0);
    let b1 = padded(input, start, n, 1);
    let b2 = padded(input, start, n, 2);
    let b3 = padded(input, start, n, 3);
    let b4 = padded(input, start, n, 4);
    let v: u64 = ((b0 as u64) << 32u64) | ((b1 as u64) << 24u64) | ((b2 as u64) << 16u64) | ((b3
        as u64) << 8u64) | (b4 as u64);
    assert(v == group_value(g));
    let k: usize = (8 * n + 4) / 5;
    let mut i: usize = 0;
    while i < k
        invariant
            k == symbols_for_bytes(n as int),
            k <= 8,
            i <= k,
            v == group_value(g),
            out@ == old(out)@ + Seq::new(i as nat, |t: int| spec_symbol(five_bits(v, t))),
        decreases k - i,
    {
        let c = symbol(five_bits_at(v, i));
        out.push(c);
        i = i + 1;
        assert(out@ =~= old(out)@ + Seq::new(i as nat, |t: int| spec_symbol(five_bits(v, t))));
    }
    assert(Seq::new(k as nat, |t: int| spec_symbol(five_bits(v, t))) =~= encode_group(g));
}

/// The base32 encoding of `input`, as ASCII bytes.
pub fn encode(input: &[u8]) -> (out: Vec<u8>)
    ensures
        out@ == spec_encode(input@),
{
    let mut out: Vec<u8> = Vec::new();
    let len = input.len();
    let mut start: usize = 0;
    assert(input@.skip(0) =~= input@);
    assert(out@ + spec_encode(input@) =~= spec_encode(input@));
    while start < len
        invariant
            start <= len,
            len == input@.len(),
            out@ + spec_encode(input@.skip(start as int)) == spec_encode(input@),
        decreases len - start,
    {
        let n: usize = if len - start < 5 {
            len - start
        } else {
            5
        };
        let ghost before = out@;
        encode_group_into(input, start, n, &mut out);
        proof {
            let rest = input@.skip(start as int);
            let g = input@.subrange(start as int, start + n);
            if rest.len() <= 5 {
                assert(rest =~= g);
                assert(input@.skip(start + n) =~= Seq::<u8>::empty());
            } else {
                assert(rest.take(5) =~= g);
                assert(rest.skip(5) =~= input@.skip(start + n));
            }
        }
        start = start + n;
    }
    assert(input@.skip(len as int) =~= Seq::<u8>::empty());
    out
}

/// Appends the bytes of the symbol group `input[start..start + r]` when it is canonical.
fn decode_group_into(input: &[u8], start: usize, r: usize, out: &mut Vec<u8>) -> (ok: bool)
    requires
        1 <= r <= 8,
        start + r <= input.len(),
    ensures
        ok == (decode_group(input@.subrange(start as int, start + r)) is Some),
        ok ==> final(out)@ == old(out)@ + decode_group(input@.subrange(start as int, start + r))->0,
{
    let ghost c = input@.subrange(start as int, start + r);
    if !(r == 2 || r == 4 || r == 5 || r == 7 || r == 8) {
        return false;
    }
    let mut vals: [u8; 8] = [0u8; 8];
    let mut i: usize = 0;
    while i < r
        invariant
            i <= r,
            r <= 8,
            start + r <= input.len(),
            c == input@.subrange(start as int, start + r),
            forall|t: int| 0 <= t < i ==> (#[trigger] spec_symbol_value(c[t])) is Some && vals[t]
                == spec_symbol_value(c[t])->0,
            forall|t: int| i <= t < 8 ==> #[trigger] vals[t] == 0,
        decreases r - i,
    {
        match symbol_value(input[start + i]) {
            Some(x) => {
                vals[i] = x;
            },
            None => {
                assert(c[i as int] == input@[start + i]);
                assert(!all_symbols(c));
                return false;
            },
        }
        i = i + 1;
    }
    assert(all_symbols(c));
    let ghost sv = symbol_values(c);
    assert forall|t: int| 0 <= t < 8 implies #[trigger] vals@[t] == at(sv, t) by {}
    let v: u64 = ((vals[0] as u64) << 35u64) | ((vals[1] as u64) << 30u64) | ((vals[2] as u64)
        << 25u64) | ((vals[3] as u64) << 20u64) | ((vals[4] as u64) << 15u64) | ((vals[5] as u64)
        << 10u64) | ((vals[6] as u64) << 5u64) | (vals[7] as u64);
    assert(v == symbols_value(sv));
    let n: usize = (5 * r) / 8;
    let unused: u64 = if n == 1 {
        v & 0xffff_ffff
    } else if n == 2 {
        v & 0xff_ffff
    } else if n == 3 {
        v & 0xffff
    } else if n == 4 {
        v & 0xff
    } else {
        0
    };
    if unused != 0 {
        return false;
    }
    let mut j: usize = 0;
    while j < n
        invariant
            n == bytes_for_symbols(r as int),
            n <= 5,
            j <= n,
            out@ == old(out)@ + Seq::new(j as nat, |t: int| byte_of(v, t)),
        decreases n - j,
    {
        out.push(byte_at(v, j));
        j = j + 1;
        assert(out@ =~= old(out)@ + Seq::new(j as nat, |t: int| byte_of(v, t)));
    }
    true
}

/// The bytes that `input` (base32 symbols as ASCII bytes) decodes to, or `None` when it is
/// not the canonical encoding of any byte sequence.
pub fn decode(input: &[u8]) -> (out: Option<Vec<u8>>)
    ensures
        match out {
            Some(b) => spec_decode(input@) == Some(b@),
            None => spec_decode(input@) is None,
        },
{
    let mut out: Vec<u8> = Vec::new();
    let len = input.len();
    let mut start: usize = 0;
    assert(input@.skip(0) =~= input@);
    proof {
        match spec_decode(input@) {
            Some(t) => {
                assert(out@ + t =~= t);
            },
            None => {},
        }
    }
    while start < len
        invariant
            start <= len,
            len == input@.len(),
            spec_decode(input@) == match spec_decode(input@.skip(start as int)) {
                Some(t) => Some(out@ + t),
                None => None::<Seq<u8>>,
            },
        decreases len - start,
    {
        let r: usize = if len - start < 8 {
            len - start
        } else {
            8
        };
        let ghost before = out@;
        let ghost rest = input@.skip(start as int);
        let ghost g = input@.subrange(start as int, start + r);
        proof {
            if rest.len() <= 8 {
                assert(rest =~= g);
                assert(input@.skip(start + r) =~= Seq::<u8>::empty());
            } else {
                assert(rest.take(8) =~= g);
                assert(rest.skip(8) =~= input@.skip(start + r));
            }
        }
        if !decode_group_into(input, start, r, &mut out) {
            return None;
        }
        proof {
            let head = decode_group(g)->0;
            match spec_decode(input@.skip(start + r)) {
                Some(t) => {
                    assert(before + (head + t) =~= out@ + t);
                },
                None => {},
            }
        }
        start = start + r;
    }
    assert(input@.skip(len as int) =~= Seq::<u8>::empty());
    assert(out@ + Seq::<u8>::empty() =~= out@);
    Some(out)
}

/// Every element of an encoding is a symbol of the alphabet (and so an ASCII byte).
pub proof fn lemma_encode_symbols(b: Seq<u8>)
    ensures
        forall|i: int|
            0 <= i < spec_encode(b).len() ==> (#[trigger] spec_symbol_value(spec_encode(b)[i])) is Some
                && spec_encode(b)[i] < 128,
    decreases b.len(),
{
    if b.len() == 0 {
    } else {
        let g = if b.len() <= 5 { b } else { b.take(5) };
        let v = group_value(g);
        lemma_five_bits_bound(v);
        assert forall|i: int| 0 <= i < encode_group(g).len() implies (#[trigger] spec_symbol_value(
            encode_group(g)[i],
        )) is Some && encode_group(g)[i] < 128 by {
            lemma_symbol_roundtrip(five_bits(v, i));
        }
        if b.len() > 5 {
            lemma_encode_symbols(b.skip(5));
            let e = spec_encode(b);
            assert forall|i: int| 0 <= i < e.len() implies (#[trigger] spec_symbol_value(e[i])) is Some
                && e[i] < 128 by {
                if i >= encode_group(g).len() {
                    assert(e[i] == spec_encode(b.skip(5))[i - encode_group(g).len()]);
                }
            }
        }
    }
}

/// Whether a byte is in the RFC 4648 lower-case alphabet: `a`..`z` or `2`..`7`.
pub open spec fn in_lower_alphabet(c: u8) -> bool {
    (0x61 <= c <= 0x7a) || (0x32 <= c <= 0x37)
}

/// The symbols are the RFC 4648 lower-case alphabet in order: the values 0..25 go to the
/// letters `a`..`z`, the values 26..31 to the digits `2`..`7`, each in ascending order (so
/// 0 is `a`, 25 is `z`, 26 is `2` and 31 is `7`).
pub proof fn lemma_symbols_alphabet(v: u8, w: u8)
    requires
        v < 32,
        w < 32,
    ensures
        v < 26 ==> 0x61 <= spec_symbol(v) <= 0x7a,
        v >= 26 ==> 0x32 <= spec_symbol(v) <= 0x37,
        v < w && (w < 26 || v >= 26) ==> spec_symbol(v) < spec_symbol(w),
        v == 0 ==> spec_symbol(v) == 0x61,
        v == 26 ==> spec_symbol(v) == 0x32,
{
}

/// Every symbol of an encoding is in the lower-case alphabet.
pub proof fn lemma_encode_lower_alphabet(b: Seq<u8>)
    ensures
        forall|i: int|
            0 <= i < spec_encode(b).len() ==> #[trigger] in_lower_alphabet(spec_encode(b)[i]),
    decreases b.len(),
{
    if b.len() > 0 {
        let g = if b.len() <= 5 {
            b
        } else {
            b.take(5)
        };
        let v = group_value(g);
        lemma_five_bits_bound(v);
        let eg = encode_group(g);
        assert forall|i: int| 0 <= i < eg.len() implies #[trigger] in_lower_alphabet(eg[i]) by {
            lemma_symbols_alphabet(five_bits(v, i), 0);
        }
        if b.len() > 5 {
            lemma_encode_lower_alphabet(b.skip(5));
            let e = spec_encode(b);
            assert forall|i: int| 0 <= i < e.len() implies #[trigger] in_lower_alphabet(e[i]) by {
                if i >= eg.len() {
                    assert(e[i] == spec_encode(b.skip(5))[i - eg.len()]);
                } else {
                    assert(e[i] == eg[i]);
                }
            }
        }
    }
}

} // verus!
