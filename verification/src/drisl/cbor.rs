//! The CBOR items that DRISL writes, and the byte order that DRISL sorts map entries by.
//!
//! Every data item starts with a head: the major type in the top three bits of the first byte,
//! and an argument in the shortest form that holds it (in the low five bits when below 24,
//! else in 1, 2, 4 or 8 big-endian bytes that follow, announced by 24, 25, 26 or 27).
use vstd::prelude::*;

verus! {

pub const MAJOR_UNSIGNED: u8 = 0;

pub const MAJOR_NEGATIVE: u8 = 1;

pub const MAJOR_BYTES: u8 = 2;

pub const MAJOR_TEXT: u8 = 3;

pub const MAJOR_ARRAY: u8 = 4;

pub const MAJOR_MAP: u8 = 5;

pub const MAJOR_TAG: u8 = 6;

pub const FALSE: u8 = 0xf4;

pub const TRUE: u8 = 0xf5;

pub const NULL: u8 = 0xf6;

pub const FLOAT64: u8 = 0xfb;

/// The CBOR tag that is used for CIDs.
pub const CBOR_TAGS_CID: u64 = 42;

/// The byte of `a` at bit offset `s` (a multiple of eight).
pub open spec fn digit(a: u64, s: u64) -> u8 {
    ((a >> s) & 0xff) as u8
}

/// The head of a data item with major type `major` and argument `arg`.
pub open spec fn spec_head(major: u8, arg: u64) -> Seq<u8> {
    let m = (major * 32) as u8;
    if arg < 24 {
        seq![(m + arg) as u8]
    } else if arg <= 0xff {
        seq![(m + 24) as u8, digit(arg, 0)]
    } else if arg <= 0xffff {
        seq![(m + 25) as u8, digit(arg, 8), digit(arg, 0)]
    } else if arg <= 0xffff_ffff {
        seq![(m + 26) as u8, digit(arg, 24), digit(arg, 16), digit(arg, 8), digit(arg, 0)]
    } else {
        seq![
            (m + 27) as u8,
            digit(arg, 56),
            digit(arg, 48),
            digit(arg, 40),
            digit(arg, 32),
            digit(arg, 24),
            digit(arg, 16),
            digit(arg, 8),
            digit(arg, 0),
        ]
    }
}

/// An integer in `[-2^64, 2^64 - 1]`.
pub open spec fn spec_int(v: int) -> Seq<u8> {
    if v >= 0 {
        spec_head(MAJOR_UNSIGNED, v as u64)
    } else {
        spec_head(MAJOR_NEGATIVE, (-1 - v) as u64)
    }
}

/// A byte string.
pub open spec fn spec_bytes(b: Seq<u8>) -> Seq<u8> {
    spec_head(MAJOR_BYTES, b.len() as u64) + b
}

/// A text string, given by its UTF-8 bytes.
pub open spec fn spec_text(b: Seq<u8>) -> Seq<u8> {
    spec_head(MAJOR_TEXT, b.len() as u64) + b
}

pub open spec fn spec_bool(b: bool) -> Seq<u8> {
    if b {
        seq![TRUE]
    } else {
        seq![FALSE]
    }
}

pub open spec fn spec_null() -> Seq<u8> {
    seq![NULL]
}

/// A double-precision float, given by its IEEE 754 bits.
pub open spec fn spec_float64(bits: u64) -> Seq<u8> {
    seq![FLOAT64] + seq![
        digit(bits, 56),
        digit(bits, 48),
        digit(bits, 40),
        digit(bits, 32),
        digit(bits, 24),
        digit(bits, 16),
        digit(bits, 8),
        digit(bits, 0),
    ]
}

/// A tagged byte string, as CIDs are written.
pub open spec fn spec_cid_link(b: Seq<u8>) -> Seq<u8> {
    spec_head(MAJOR_TAG, CBOR_TAGS_CID) + spec_bytes(b)
}

/// Whether IEEE 754 double bits denote a finite number (the exponent is not all ones).
pub open spec fn is_finite_bits(bits: u64) -> bool {
    (bits >> 52u64) & 0x7ff != 0x7ff
}

// ---------------------------------------------------------------------------------------------
// Writing items.
/// Appends the head of an item with major type `major` and argument `arg`.
pub fn write_head(out: &mut Vec<u8>, major: u8, arg: u64)
    requires
        major < 8,
    ensures
        final(out)@ == old(out)@ + spec_head(major, arg),
{
    let m: u8 = major * 32;
    if arg < 24 {
        out.push(m + arg as u8);
    } else if arg <= 0xff {
        out.push(m + 24);
        out.push(((arg >> 0u64) & 0xff) as u8);
    } else if arg <= 0xffff {
        out.push(m + 25);
        out.push(((arg >> 8u64) & 0xff) as u8);
        out.push(((arg >> 0u64) & 0xff) as u8);
    } else if arg <= 0xffff_ffff {
        out.push(m + 26);
        out.push(((arg >> 24u64) & 0xff) as u8);
        out.push(((arg >> 16u64) & 0xff) as u8);
        out.push(((arg >> 8u64) & 0xff) as u8);
        out.push(((arg >> 0u64) & 0xff) as u8);
    } else {
        out.push(m + 27);
        out.push(((arg >> 56u64) & 0xff) as u8);
        out.push(((arg >> 48u64) & 0xff) as u8);
        out.push(((arg >> 40u64) & 0xff) as u8);
        out.push(((arg >> 32u64) & 0xff) as u8);
        out.push(((arg >> 24u64) & 0xff) as u8);
        out.push(((arg >> 16u64) & 0xff) as u8);
        out.push(((arg >> 8u64) & 0xff) as u8);
        out.push(((arg >> 0u64) & 0xff) as u8);
    }
    assert(final(out)@ =~= old(out)@ + spec_head(major, arg));
}

/// Appends `bytes` as they are.
pub fn write_raw(out: &mut Vec<u8>, bytes: &[u8])
    ensures
        final(out)@ == old(out)@ + bytes@,
{
    let n = bytes.len();
    let mut i: usize = 0;
    while i < n
        invariant
            n == bytes@.len(),
            i <= n,
            out@ == old(out)@ + bytes@.take(i as int),
        decreases n - i,
    {
        out.push(bytes[i]);
        i = i + 1;
        assert(out@ =~= old(out)@ + bytes@.take(i as int));
    }
    assert(bytes@.take(n as int) =~= bytes@);
}

/// Appends a double-precision float given by its bits.
pub fn write_float64(out: &mut Vec<u8>, bits: u64)
    ensures
        final(out)@ == old(out)@ + spec_float64(bits),
{
    out.push(FLOAT64);
    out.push(((bits >> 56u64) & 0xff) as u8);
    out.push(((bits >> 48u64) & 0xff) as u8);
    out.push(((bits >> 40u64) & 0xff) as u8);
    out.push(((bits >> 32u64) & 0xff) as u8);
    out.push(((bits >> 24u64) & 0xff) as u8);
    out.push(((bits >> 16u64) & 0xff) as u8);
    out.push(((bits >> 8u64) & 0xff) as u8);
    out.push(((bits >> 0u64) & 0xff) as u8);
    assert(final(out)@ =~= old(out)@ + spec_float64(bits));
}

// ---------------------------------------------------------------------------------------------
// The byte order on encoded items.
/// Lexicographic order on byte strings, a proper prefix ordered first (the order of `Vec<u8>`).
pub open spec fn bytes_lt(a: Seq<u8>, b: Seq<u8>) -> bool
    decreases a.len(),
{
    if a.len() == 0 {
        b.len() > 0
    } else if b.len() == 0 {
        false
    } else if a[0] != b[0] {
        a[0] < b[0]
    } else {
        bytes_lt(a.drop_first(), b.drop_first())
    }
}

/// Whether `a` comes no later than `b`.
pub open spec fn bytes_le(a: Seq<u8>, b: Seq<u8>) -> bool {
    !bytes_lt(b, a)
}

/// Whether the byte strings of `s` are in ascending order.
pub open spec fn sorted_bytes(s: Seq<Seq<u8>>) -> bool {
    forall|i: int, j: int| 0 <= i < j < s.len() ==> bytes_le(#[trigger] s[i], #[trigger] s[j])
}

/// The order is strict: no byte string comes before itself.
pub proof fn lemma_bytes_lt_irreflexive(a: Seq<u8>)
    ensures
        !bytes_lt(a, a),
    decreases a.len(),
{
    if a.len() > 0 {
        lemma_bytes_lt_irreflexive(a.drop_first());
    }
}

/// The order is asymmetric.
pub proof fn lemma_bytes_lt_asymmetric(a: Seq<u8>, b: Seq<u8>)
    ensures
        bytes_lt(a, b) ==> !bytes_lt(b, a),
    decreases a.len(),
{
    if a.len() > 0 && b.len() > 0 && a[0] == b[0] {
        lemma_bytes_lt_asymmetric(a.drop_first(), b.drop_first());
    }
}

/// The order is transitive.
pub proof fn lemma_bytes_lt_transitive(a: Seq<u8>, b: Seq<u8>, c: Seq<u8>)
    ensures
        bytes_lt(a, b) && bytes_lt(b, c) ==> bytes_lt(a, c),
    decreases a.len(),
{
    if a.len() > 0 && b.len() > 0 && c.len() > 0 {
        lemma_bytes_lt_transitive(a.drop_first(), b.drop_first(), c.drop_first());
    }
}

/// The order is total: of two different byte strings, one comes first.
pub proof fn lemma_bytes_lt_total(a: Seq<u8>, b: Seq<u8>)
    ensures
        a != b ==> bytes_lt(a, b) || bytes_lt(b, a),
    decreases a.len(),
{
    if a.len() > 0 && b.len() > 0 && a[0] == b[0] {
        lemma_bytes_lt_total(a.drop_first(), b.drop_first());
        if a.drop_first() == b.drop_first() {
            assert(a =~= seq![a[0]] + a.drop_first());
            assert(b =~= seq![b[0]] + b.drop_first());
        }
    } else if a.len() == 0 && b.len() == 0 {
        assert(a =~= b);
    }
}

/// Two byte strings that agree before index `i` and differ at `i` are ordered by that byte,
/// whatever follows.
pub proof fn lemma_bytes_lt_first_difference(a: Seq<u8>, b: Seq<u8>, i: int)
    requires
        0 <= i < a.len(),
        i < b.len(),
        forall|j: int| 0 <= j < i ==> a[j] == b[j],
        a[i] != b[i],
    ensures
        bytes_lt(a, b) == (a[i] < b[i]),
    decreases i,
{
    if i > 0 {
        lemma_bytes_lt_first_difference(a.drop_first(), b.drop_first(), i - 1);
    }
}

/// A common prefix does not change the order.
pub proof fn lemma_bytes_lt_common_prefix(p: Seq<u8>, a: Seq<u8>, b: Seq<u8>)
    ensures
        bytes_lt(p + a, p + b) == bytes_lt(a, b),
    decreases p.len(),
{
    if p.len() > 0 {
        assert((p + a).drop_first() =~= p.drop_first() + a);
        assert((p + b).drop_first() =~= p.drop_first() + b);
        lemma_bytes_lt_common_prefix(p.drop_first(), a, b);
    } else {
        assert(p + a =~= a);
        assert(p + b =~= b);
    }
}

/// Two different byte strings of one length are ordered as they are, whatever follows them.
pub proof fn lemma_bytes_lt_same_length(a: Seq<u8>, b: Seq<u8>, x: Seq<u8>, y: Seq<u8>)
    requires
        a.len() == b.len(),
        a != b,
    ensures
        bytes_lt(a + x, b + y) == bytes_lt(a, b),
    decreases a.len(),
{
    if a.len() == 0 {
        assert(a =~= b);
    } else if a[0] != b[0] {
        assert((a + x)[0] == a[0]);
        assert((b + y)[0] == b[0]);
    } else {
        assert((a + x).drop_first() =~= a.drop_first() + x);
        assert((b + y).drop_first() =~= b.drop_first() + y);
        if a.drop_first() == b.drop_first() {
            assert(a =~= seq![a[0]] + a.drop_first());
            assert(b =~= seq![b[0]] + b.drop_first());
        }
        lemma_bytes_lt_same_length(a.drop_first(), b.drop_first(), x, y);
    }
}

/// Whether `a` and `b` agree on the bytes at the given bit offsets.
pub open spec fn same_digits2(a: u64, b: u64, s0: u64, s1: u64) -> bool {
    digit(a, s0) == digit(b, s0) && digit(a, s1) == digit(b, s1)
}

pub open spec fn same_digits4(a: u64, b: u64, s0: u64, s1: u64, s2: u64, s3: u64) -> bool {
    same_digits2(a, b, s0, s1) && same_digits2(a, b, s2, s3)
}

/// Big-endian digits order numbers: the first digit where two numbers differ is smaller in the
/// smaller number (for numbers of one byte and of two bytes).
proof fn lemma_digits_order_16(a: u64, b: u64) by (bit_vector)
    requires
        a < b,
    ensures
        b <= 0xff ==> digit(a, 0) < digit(b, 0),
        b <= 0xffff ==> (digit(a, 8) < digit(b, 8) || (digit(a, 8) == digit(b, 8) && digit(a, 0)
            < digit(b, 0))),
{
}

/// The same, for numbers of four bytes.
proof fn lemma_digits_order_32(a: u64, b: u64) by (bit_vector)
    requires
        a < b,
        b <= 0xffff_ffff,
    ensures
        digit(a, 24) < digit(b, 24) || (digit(a, 24) == digit(b, 24) && digit(a, 16) < digit(b, 16))
            || (same_digits2(a, b, 24, 16) && digit(a, 8) < digit(b, 8)) || (same_digits2(
            a,
            b,
            24,
            16,
        ) && digit(a, 8) == digit(b, 8) && digit(a, 0) < digit(b, 0)),
{
}

/// The same, for numbers of eight bytes.
proof fn lemma_digits_order_64(a: u64, b: u64) by (bit_vector)
    requires
        a < b,
    ensures
        digit(a, 56) < digit(b, 56) || (digit(a, 56) == digit(b, 56) && digit(a, 48) < digit(b, 48))
            || (same_digits2(a, b, 56, 48) && digit(a, 40) < digit(b, 40)) || (same_digits2(
            a,
            b,
            56,
            48,
        ) && digit(a, 40) == digit(b, 40) && digit(a, 32) < digit(b, 32)) || (same_digits4(
            a,
            b,
            56,
            48,
            40,
            32,
        ) && digit(a, 24) < digit(b, 24)) || (same_digits4(a, b, 56, 48, 40, 32) && digit(a, 24)
            == digit(b, 24) && digit(a, 16) < digit(b, 16)) || (same_digits4(a, b, 56, 48, 40, 32)
            && same_digits2(a, b, 24, 16) && digit(a, 8) < digit(b, 8)) || (same_digits4(
            a,
            b,
            56,
            48,
            40,
            32,
        ) && same_digits2(a, b, 24, 16) && digit(a, 8) == digit(b, 8) && digit(a, 0) < digit(
            b,
            0,
        )),
{
}

/// Heads of one major type are ordered by their arguments, whatever follows them.
pub proof fn lemma_head_order(major: u8, a: u64, b: u64, x: Seq<u8>, y: Seq<u8>)
    requires
        major < 8,
        a < b,
    ensures
        bytes_lt(spec_head(major, a) + x, spec_head(major, b) + y),
{
    let ha = spec_head(major, a);
    let hb = spec_head(major, b);
    let s = ha + x;
    let t = hb + y;
    lemma_digits_order_16(a, b);
    if b <= 0xffff_ffff {
        lemma_digits_order_32(a, b);
    }
    lemma_digits_order_64(a, b);
    let same_class = (a < 24 && b < 24) || (24 <= a && a <= 0xff && 24 <= b && b <= 0xff) || (0xff
        < a && a <= 0xffff && 0xff < b && b <= 0xffff) || (0xffff < a && a <= 0xffff_ffff && 0xffff
        < b && b <= 0xffff_ffff) || (0xffff_ffff < a && 0xffff_ffff < b);
    if !same_class || a < 24 {
        assert(s[0] == ha[0] && t[0] == hb[0]);
        assert(s[0] < t[0]);
        lemma_bytes_lt_first_difference(s, t, 0);
    } else {
        assert(s[0] == t[0]);
        let w: int = if b <= 0xff {
            1
        } else if b <= 0xffff {
            2
        } else if b <= 0xffff_ffff {
            4
        } else {
            8
        };
        assert(ha.len() == w + 1 && hb.len() == w + 1);
        // the first index, after the first byte, where the heads differ
        let i: int = choose|i: int|
            1 <= i <= w && ha[i] < hb[i] && forall|j: int| 0 <= j < i ==> ha[j] == hb[j];
        assert(exists|i: int|
            1 <= i <= w && ha[i] < hb[i] && forall|j: int| 0 <= j < i ==> ha[j] == hb[j]) by {
            if w == 1 {
                assert(ha[1] < hb[1]);
                assert(1 <= 1 <= w && ha[1] < hb[1] && forall|j: int| 0 <= j < 1 ==> ha[j] == hb[j]);
            } else if w == 2 {
                if ha[1] < hb[1] {
                    assert(forall|j: int| 0 <= j < 1 ==> ha[j] == hb[j]);
                } else {
                    assert(forall|j: int| 0 <= j < 2 ==> ha[j] == hb[j]);
                }
            } else if w == 4 {
                if ha[1] < hb[1] {
                    assert(forall|j: int| 0 <= j < 1 ==> ha[j] == hb[j]);
                } else if ha[2] < hb[2] {
                    assert(forall|j: int| 0 <= j < 2 ==> ha[j] == hb[j]);
                } else if ha[3] < hb[3] {
                    assert(forall|j: int| 0 <= j < 3 ==> ha[j] == hb[j]);
                } else {
                    assert(forall|j: int| 0 <= j < 4 ==> ha[j] == hb[j]);
                }
            } else {
                if ha[1] < hb[1] {
                    assert(forall|j: int| 0 <= j < 1 ==> ha[j] == hb[j]);
                } else if ha[2] < hb[2] {
                    assert(forall|j: int| 0 <= j < 2 ==> ha[j] == hb[j]);
                } else if ha[3] < hb[3] {
                    assert(forall|j: int| 0 <= j < 3 ==> ha[j] == hb[j]);
                } else if ha[4] < hb[4] {
                    assert(forall|j: int| 0 <= j < 4 ==> ha[j] == hb[j]);
                } else if ha[5] < hb[5] {
                    assert(forall|j: int| 0 <= j < 5 ==> ha[j] == hb[j]);
                } else if ha[6] < hb[6] {
                    assert(forall|j: int| 0 <= j < 6 ==> ha[j] == hb[j]);
                } else if ha[7] < hb[7] {
                    assert(forall|j: int| 0 <= j < 7 ==> ha[j] == hb[j]);
                } else {
                    assert(forall|j: int| 0 <= j < 8 ==> ha[j] == hb[j]);
                }
            }
        }
        assert forall|j: int| 0 <= j < i implies s[j] == t[j] by {
            assert(ha[j] == hb[j]);
        }
        lemma_bytes_lt_first_difference(s, t, i);
    }
}

/// Map entries whose keys are distinct text strings sort as RFC 7049 canonical CBOR orders
/// them: a shorter key first, and keys of one length by their bytes, whatever the values.
pub proof fn lemma_text_keys_length_first(k1: Seq<u8>, k2: Seq<u8>, v1: Seq<u8>, v2: Seq<u8>)
    requires
        k1 != k2,
        k1.len() <= u64::MAX,
        k2.len() <= u64::MAX,
    ensures
        bytes_lt(spec_text(k1) + v1, spec_text(k2) + v2) <==> (k1.len() < k2.len() || (k1.len()
            == k2.len() && bytes_lt(k1, k2))),
{
    let e1 = spec_text(k1) + v1;
    let e2 = spec_text(k2) + v2;
    let h1 = spec_head(MAJOR_TEXT, k1.len() as u64);
    let h2 = spec_head(MAJOR_TEXT, k2.len() as u64);
    assert(e1 =~= h1 + (k1 + v1));
    assert(e2 =~= h2 + (k2 + v2));
    if k1.len() < k2.len() {
        lemma_head_order(MAJOR_TEXT, k1.len() as u64, k2.len() as u64, k1 + v1, k2 + v2);
    } else if k2.len() < k1.len() {
        lemma_head_order(MAJOR_TEXT, k2.len() as u64, k1.len() as u64, k2 + v2, k1 + v1);
        lemma_bytes_lt_asymmetric(e2, e1);
    } else {
        assert(h1 == h2);
        lemma_bytes_lt_common_prefix(h1, k1 + v1, k2 + v2);
        lemma_bytes_lt_same_length(k1, k2, v1, v2);
    }
}

// ---------------------------------------------------------------------------------------------
// Reading items back.
/// The number that bytes denote in big-endian order.
pub open spec fn be_value(s: Seq<u8>) -> int
    decreases s.len(),
{
    if s.len() == 0 {
        0
    } else {
        be_value(s.drop_last()) * 256 + s.last()
    }
}

/// The major type that the first byte of an item announces.
pub open spec fn major_of(first: u8) -> u8 {
    first / 32
}

/// The length of the head that the first byte of an item announces.
pub open spec fn head_length_of(first: u8) -> int {
    let info = first % 32;
    if info < 24 {
        1
    } else if info == 24 {
        2
    } else if info == 25 {
        3
    } else if info == 26 {
        5
    } else {
        9
    }
}

/// The argument that the head at the start of `item` carries.
pub open spec fn head_argument(item: Seq<u8>) -> int {
    let info = item[0] % 32;
    if info < 24 {
        info as int
    } else {
        be_value(item.subrange(1, head_length_of(item[0])))
    }
}

/// The length of the shortest head for an argument.
pub open spec fn shortest_head_length(arg: u64) -> int {
    if arg < 24 {
        1
    } else if arg <= 0xff {
        2
    } else if arg <= 0xffff {
        3
    } else if arg <= 0xffff_ffff {
        5
    } else {
        9
    }
}

proof fn lemma_be_value_push(s: Seq<u8>, b: u8)
    ensures
        be_value(s.push(b)) == be_value(s) * 256 + b,
{
    assert(s.push(b).drop_last() =~= s);
}

/// Big-endian bytes of a number, at the widths a head uses, read back to the number.
proof fn lemma_digits_value(x: u64) by (bit_vector)
    ensures
        x <= 0xffff ==> x == (digit(x, 8) as u64) * 256 + (digit(x, 0) as u64),
        x <= 0xffff_ffff ==> x == (((digit(x, 24) as u64) * 256 + (digit(x, 16) as u64)) * 256 + (
        digit(x, 8) as u64)) * 256 + (digit(x, 0) as u64),
        x == (((((((digit(x, 56) as u64) * 256 + (digit(x, 48) as u64)) * 256 + (digit(x, 40)
            as u64)) * 256 + (digit(x, 32) as u64)) * 256 + (digit(x, 24) as u64)) * 256 + (digit(
            x,
            16,
        ) as u64)) * 256 + (digit(x, 8) as u64)) * 256 + (digit(x, 0) as u64),
        x <= 0xff ==> x == digit(x, 0) as u64,
{
}

/// Eight big-endian bytes of `x` read back give `x`.
proof fn lemma_be_value_8(x: u64)
    ensures
        be_value(
            seq![
                digit(x, 56),
                digit(x, 48),
                digit(x, 40),
                digit(x, 32),
                digit(x, 24),
                digit(x, 16),
                digit(x, 8),
                digit(x, 0),
            ],
        ) == x,
{
    lemma_digits_value(x);
    let e = Seq::<u8>::empty();
    let s1 = e.push(digit(x, 56));
    let s2 = s1.push(digit(x, 48));
    let s3 = s2.push(digit(x, 40));
    let s4 = s3.push(digit(x, 32));
    let s5 = s4.push(digit(x, 24));
    let s6 = s5.push(digit(x, 16));
    let s7 = s6.push(digit(x, 8));
    let s8 = s7.push(digit(x, 0));
    lemma_be_value_push(e, digit(x, 56));
    lemma_be_value_push(s1, digit(x, 48));
    lemma_be_value_push(s2, digit(x, 40));
    lemma_be_value_push(s3, digit(x, 32));
    lemma_be_value_push(s4, digit(x, 24));
    lemma_be_value_push(s5, digit(x, 16));
    lemma_be_value_push(s6, digit(x, 8));
    lemma_be_value_push(s7, digit(x, 0));
    assert(s8 =~= seq![
        digit(x, 56),
        digit(x, 48),
        digit(x, 40),
        digit(x, 32),
        digit(x, 24),
        digit(x, 16),
        digit(x, 8),
        digit(x, 0),
    ]);
}

/// A float is written as 0xfb and then its eight bytes in big-endian order: the nine-byte
/// item starts with 0xfb, and its last eight bytes read back as a big-endian number give the
/// bits.
pub proof fn lemma_float64_bits(x: u64)
    ensures
        spec_float64(x).len() == 9,
        spec_float64(x)[0] == 0xfb,
        be_value(spec_float64(x).skip(1)) == x,
{
    lemma_be_value_8(x);
    assert(spec_float64(x).skip(1) =~= seq![
        digit(x, 56),
        digit(x, 48),
        digit(x, 40),
        digit(x, 32),
        digit(x, 24),
        digit(x, 16),
        digit(x, 8),
        digit(x, 0),
    ]);
}

/// Every head is the shortest one for its argument, and reads back: its first byte announces
/// the major type and the head's length, and the argument read back from it is `arg`.
pub proof fn lemma_head_reads_back(major: u8, arg: u64)
    requires
        major < 8,
    ensures
        spec_head(major, arg).len() == shortest_head_length(arg),
        major_of(spec_head(major, arg)[0]) == major,
        head_length_of(spec_head(major, arg)[0]) == spec_head(major, arg).len(),
        head_argument(spec_head(major, arg)) == arg,
{
    let h = spec_head(major, arg);
    lemma_digits_value(arg);
    if arg < 24 {
    } else if arg <= 0xff {
        let e = Seq::<u8>::empty();
        lemma_be_value_push(e, digit(arg, 0));
        assert(h.subrange(1, 2) =~= e.push(digit(arg, 0)));
    } else if arg <= 0xffff {
        let e = Seq::<u8>::empty();
        let s1 = e.push(digit(arg, 8));
        lemma_be_value_push(e, digit(arg, 8));
        lemma_be_value_push(s1, digit(arg, 0));
        assert(h.subrange(1, 3) =~= s1.push(digit(arg, 0)));
    } else if arg <= 0xffff_ffff {
        let e = Seq::<u8>::empty();
        let s1 = e.push(digit(arg, 24));
        let s2 = s1.push(digit(arg, 16));
        let s3 = s2.push(digit(arg, 8));
        lemma_be_value_push(e, digit(arg, 24));
        lemma_be_value_push(s1, digit(arg, 16));
        lemma_be_value_push(s2, digit(arg, 8));
        lemma_be_value_push(s3, digit(arg, 0));
        assert(h.subrange(1, 5) =~= s3.push(digit(arg, 0)));
    } else {
        lemma_be_value_8(arg);
        assert(h.subrange(1, 9) =~= seq![
            digit(arg, 56),
            digit(arg, 48),
            digit(arg, 40),
            digit(arg, 32),
            digit(arg, 24),
            digit(arg, 16),
            digit(arg, 8),
            digit(arg, 0),
        ]);
    }
}

/// A head followed by content: the head reads back from the whole item, and the content
/// follows right after it.
proof fn lemma_item_reads_back(major: u8, arg: u64, content: Seq<u8>)
    requires
        major < 8,
    ensures
        ({
            let item = spec_head(major, arg) + content;
            &&& major_of(item[0]) == major
            &&& head_argument(item) == arg
            &&& item.skip(head_length_of(item[0])) == content
        }),
{
    lemma_head_reads_back(major, arg);
    let h = spec_head(major, arg);
    let item = h + content;
    assert(item[0] == h[0]);
    assert(item.subrange(1, head_length_of(item[0])) =~= h.subrange(1, head_length_of(h[0])));
    assert(item.skip(head_length_of(item[0])) =~= content);
}

/// A byte string's head announces the byte string type and its full length, and the bytes
/// follow it.
pub proof fn lemma_bytes_reads_back(v: Seq<u8>)
    requires
        v.len() <= u64::MAX,
    ensures
        major_of(spec_bytes(v)[0]) == MAJOR_BYTES,
        head_argument(spec_bytes(v)) == v.len(),
        spec_bytes(v).skip(head_length_of(spec_bytes(v)[0])) == v,
{
    lemma_item_reads_back(MAJOR_BYTES, v.len() as u64, v);
}

/// A text string's head announces the text type and the full length of its UTF-8 bytes,
/// and the bytes follow it.
pub proof fn lemma_text_reads_back(v: Seq<u8>)
    requires
        v.len() <= u64::MAX,
    ensures
        major_of(spec_text(v)[0]) == MAJOR_TEXT,
        head_argument(spec_text(v)) == v.len(),
        spec_text(v).skip(head_length_of(spec_text(v)[0])) == v,
{
    lemma_item_reads_back(MAJOR_TEXT, v.len() as u64, v);
}

/// A CID link is a tag with number 42 around a byte string holding the CID's bytes.
pub proof fn lemma_cid_link_reads_back(v: Seq<u8>)
    requires
        v.len() <= u64::MAX,
    ensures
        ({
            let item = spec_cid_link(v);
            let inner = item.skip(head_length_of(item[0]));
            &&& major_of(item[0]) == MAJOR_TAG
            &&& head_argument(item) == 42
            &&& major_of(inner[0]) == MAJOR_BYTES
            &&& head_argument(inner) == v.len()
            &&& inner.skip(head_length_of(inner[0])) == v
        }),
{
    lemma_item_reads_back(MAJOR_TAG, CBOR_TAGS_CID, spec_bytes(v));
    lemma_bytes_reads_back(v);
}

/// An integer reads back: a non-negative one as an unsigned head with its value, a negative
/// one as a negative head whose argument is `-1 - v`.
pub proof fn lemma_int_reads_back(v: int)
    requires
        -0x1_0000_0000_0000_0000 <= v <= 0xffff_ffff_ffff_ffff,
    ensures
        spec_int(v).len() == head_length_of(spec_int(v)[0]),
        v >= 0 ==> major_of(spec_int(v)[0]) == MAJOR_UNSIGNED && head_argument(spec_int(v)) == v,
        v < 0 ==> major_of(spec_int(v)[0]) == MAJOR_NEGATIVE && head_argument(spec_int(v)) == -1
            - v,
{
    if v >= 0 {
        lemma_head_reads_back(MAJOR_UNSIGNED, v as u64);
    } else {
        lemma_head_reads_back(MAJOR_NEGATIVE, (-1 - v) as u64);
    }
}

/// Booleans and null are one-byte simple values (major type 7): false is 20, true is 21 and
/// null is 22.
pub proof fn lemma_simple_values(b: bool)
    ensures
        spec_bool(b).len() == 1,
        major_of(spec_bool(b)[0]) == 7,
        spec_bool(b)[0] % 32 == if b {
            21u8
        } else {
            20u8
        },
        spec_null().len() == 1,
        major_of(spec_null()[0]) == 7,
        spec_null()[0] % 32 == 22,
{
}

/// A double is finite exactly when its eleven exponent bits (bits 52 to 62) are not all ones.
pub proof fn lemma_finite_bits(x: u64) by (bit_vector)
    ensures
        is_finite_bits(x) <==> (x & 0x7ff0_0000_0000_0000) != 0x7ff0_0000_0000_0000,
{
}

// ---------------------------------------------------------------------------------------------
// The byte order, described directly.
/// Whether `a` is a proper prefix of `b`.
pub open spec fn proper_prefix(a: Seq<u8>, b: Seq<u8>) -> bool {
    a.len() < b.len() && b.take(a.len() as int) == a
}

/// Whether `a` and `b` first differ at an index inside both, where `a` has the smaller byte.
pub open spec fn smaller_at_first_difference(a: Seq<u8>, b: Seq<u8>) -> bool {
    exists|i: int|
        0 <= i < a.len() && i < b.len() && a[i] < b[i] && forall|j: int|
            0 <= j < i ==> #[trigger] a[j] == b[j]
}

/// The byte order is lexicographic with a proper prefix first: `a` comes before `b` exactly
/// when `a` is a proper prefix of `b`, or at the first index where they differ `a` has the
/// smaller byte.
pub proof fn lemma_bytes_lt_lexicographic(a: Seq<u8>, b: Seq<u8>)
    ensures
        bytes_lt(a, b) <==> proper_prefix(a, b) || smaller_at_first_difference(a, b),
    decreases a.len(),
{
    if a.len() == 0 {
        if b.len() > 0 {
            assert(b.take(0) =~= a);
        }
    } else if b.len() == 0 {
    } else if a[0] != b[0] {
        if a[0] < b[0] {
            assert(forall|j: int| 0 <= j < 0 ==> #[trigger] a[j] == b[j]);
        } else {
            assert(!proper_prefix(a, b)) by {
                if proper_prefix(a, b) {
                    assert(b.take(a.len() as int)[0] == b[0]);
                }
            }
            assert(!smaller_at_first_difference(a, b)) by {
                if smaller_at_first_difference(a, b) {
                    let i = choose|i: int|
                        0 <= i < a.len() && i < b.len() && a[i] < b[i] && forall|j: int|
                            0 <= j < i ==> #[trigger] a[j] == b[j];
                    if i > 0 {
                        assert(a[0] == b[0]);
                    }
                }
            }
        }
    } else {
        let a1 = a.drop_first();
        let b1 = b.drop_first();
        lemma_bytes_lt_lexicographic(a1, b1);
        assert(proper_prefix(a, b) <==> proper_prefix(a1, b1)) by {
            if proper_prefix(a, b) {
                assert(b1.take(a1.len() as int) =~= b.take(a.len() as int).drop_first());
                assert(a1 =~= a.drop_first());
            }
            if proper_prefix(a1, b1) {
                assert(b.take(a.len() as int) =~= a) by {
                    assert forall|k: int| 0 <= k < a.len() implies b.take(a.len() as int)[k]
                        == a[k] by {
                        if k > 0 {
                            assert(b1.take(a1.len() as int)[k - 1] == a1[k - 1]);
                        }
                    }
                }
            }
        }
        assert(smaller_at_first_difference(a, b) <==> smaller_at_first_difference(a1, b1)) by {
            if smaller_at_first_difference(a, b) {
                let i = choose|i: int|
                    0 <= i < a.len() && i < b.len() && a[i] < b[i] && forall|j: int|
                        0 <= j < i ==> #[trigger] a[j] == b[j];
                assert(i > 0);
                assert(0 <= i - 1 < a1.len() && i - 1 < b1.len() && a1[i - 1] < b1[i - 1]);
                assert forall|j: int| 0 <= j < i - 1 implies #[trigger] a1[j] == b1[j] by {
                    assert(a[j + 1] == b[j + 1]);
                }
            }
            if smaller_at_first_difference(a1, b1) {
                let i = choose|i: int|
                    0 <= i < a1.len() && i < b1.len() && a1[i] < b1[i] && forall|j: int|
                        0 <= j < i ==> #[trigger] a1[j] == b1[j];
                assert(a[i + 1] < b[i + 1]);
                assert forall|j: int| 0 <= j < i + 1 implies #[trigger] a[j] == b[j] by {
                    if j > 0 {
                        assert(a1[j - 1] == b1[j - 1]);
                    }
                }
            }
        }
    }
}

/// A byte string comes before every longer one that extends it.
pub proof fn lemma_bytes_lt_prefix_first(a: Seq<u8>, c: Seq<u8>)
    requires
        c.len() > 0,
    ensures
        bytes_lt(a, a + c),
        !bytes_lt(a + c, a),
{
    lemma_bytes_lt_lexicographic(a, a + c);
    assert((a + c).take(a.len() as int) =~= a);
    lemma_bytes_lt_asymmetric(a, a + c);
}

/// Whether `a` comes before `b` in the byte order.
pub fn bytes_less(a: &[u8], b: &[u8]) -> (r: bool)
    ensures
        r == bytes_lt(a@, b@),
{
    let n = a.len();
    let m = b.len();
    let mut i: usize = 0;
    assert(a@.skip(0) =~= a@);
    assert(b@.skip(0) =~= b@);
    loop
        invariant
            n == a@.len(),
            m == b@.len(),
            i <= n,
            i <= m,
            bytes_lt(a@, b@) == bytes_lt(a@.skip(i as int), b@.skip(i as int)),
        decreases n - i,
    {
        if i == n {
            return i < m;
        }
        if i == m {
            return false;
        }
        if a[i] != b[i] {
            return a[i] < b[i];
        }
        assert(a@.skip(i as int).drop_first() =~= a@.skip(i + 1));
        assert(b@.skip(i as int).drop_first() =~= b@.skip(i + 1));
        i = i + 1;
    }
}

} // verus!