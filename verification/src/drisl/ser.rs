//! Serialization: the bytes DRISL writes for each kind of value, the buffering that lists of
//! unknown length and maps need, and the building of values of the data model.
use vstd::prelude::*;
use vstd::string::StringSliceAdditionalSpecFns;

use crate::drisl::cbor;
use crate::drisl::cbor::{
    bytes_less,
    bytes_lt,
    bytes_le,
    is_finite_bits,
    sorted_bytes,
    spec_bool,
    spec_bytes,
    spec_cid_link,
    spec_float64,
    spec_head,
    spec_int,
    spec_null,
    spec_text,
    write_float64,
    write_head,
    write_raw,
    CBOR_TAGS_CID,
    FALSE,
    MAJOR_ARRAY,
    MAJOR_BYTES,
    MAJOR_MAP,
    MAJOR_NEGATIVE,
    MAJOR_TAG,
    MAJOR_TEXT,
    MAJOR_UNSIGNED,
    NULL,
    TRUE,
};
use crate::cid::push_char;
use crate::drisl::error::EncodeError;
use crate::drisl::value::{spec_insert, Value, ValueMap};

verus! {

/// A structure for serializing values to DRISL bytes.
pub struct Serializer {
    writer: Vec<u8>,
}

impl View for Serializer {
    type V = Seq<u8>;

    /// The bytes written so far.
    closed spec fn view(&self) -> Seq<u8> {
        self.writer@
    }
}

/// The head of a map of one entry whose key is the text `variant`: how enum variants that
/// carry data are written.
pub open spec fn spec_variant_key(variant: Seq<u8>) -> Seq<u8> {
    spec_head(MAJOR_MAP, 1) + spec_text(variant)
}

impl Serializer {
    /// Creates a new serializer that writes after the bytes of `writer`.
    pub fn new(writer: Vec<u8>) -> (s: Serializer)
        ensures
            s@ == writer@,
    {
        Serializer { writer }
    }

    /// Returns the underlying writer.
    pub fn into_inner(self) -> (w: Vec<u8>)
        ensures
            w@ == self@,
    {
        self.writer
    }

    /// The bytes written so far.
    pub fn buffer(&self) -> (b: &[u8])
        ensures
            b@ == self@,
    {
        self.writer.as_slice()
    }

    /// Discards the bytes written so far.
    pub fn clear(&mut self)
        ensures
            final(self)@ == Seq::<u8>::empty(),
    {
        self.writer.clear();
    }

    /// Appends bytes that are already encoded.
    pub fn push(&mut self, bytes: &[u8])
        ensures
            final(self)@ == old(self)@ + bytes@,
    {
        write_raw(&mut self.writer, bytes);
    }

    pub fn serialize_bool(&mut self, v: bool)
        ensures
            final(self)@ == old(self)@ + spec_bool(v),
    {
        if v {
            self.writer.push(TRUE);
        } else {
            self.writer.push(FALSE);
        }
    }

    /// A signed integer (the narrower signed types widen to this one).
    pub fn serialize_i64(&mut self, v: i64)
        ensures
            final(self)@ == old(self)@ + spec_int(v as int),
    {
        if v >= 0 {
            write_head(&mut self.writer, MAJOR_UNSIGNED, v as u64);
        } else {
            write_head(&mut self.writer, MAJOR_NEGATIVE, (-1 - v) as u64);
        }
    }

    /// An unsigned integer (the narrower unsigned types widen to this one).
    pub fn serialize_u64(&mut self, v: u64)
        ensures
            final(self)@ == old(self)@ + spec_int(v as int),
    {
        write_head(&mut self.writer, MAJOR_UNSIGNED, v);
    }

    /// A 128-bit signed integer, which must lie in `[-2^64, 2^64 - 1]`.
    pub fn serialize_i128(&mut self, v: i128) -> (r: Result<(), EncodeError>)
        ensures
            -0x1_0000_0000_0000_0000 <= v <= 0xffff_ffff_ffff_ffff ==> r is Ok && final(self)@ == old(
                self,
            )@ + spec_int(v as int),
            !(-0x1_0000_0000_0000_0000 <= v <= 0xffff_ffff_ffff_ffff) ==> r == Err::<(), EncodeError>(
                EncodeError::IntegerOutOfRange,
            ) && final(self)@ == old(self)@,
    {
        if !(0xffff_ffff_ffff_ffffi128 >= v && -0x1_0000_0000_0000_0000i128 <= v) {
            return Err(EncodeError::IntegerOutOfRange);
        }
        if v >= 0 {
            write_head(&mut self.writer, MAJOR_UNSIGNED, v as u64);
        } else {
            write_head(&mut self.writer, MAJOR_NEGATIVE, (-1 - v) as u64);
        }
        Ok(())
    }

    /// A 128-bit unsigned integer, which must lie in `[0, 2^64 - 1]`.
    pub fn serialize_u128(&mut self, v: u128) -> (r: Result<(), EncodeError>)
        ensures
            v <= 0xffff_ffff_ffff_ffff ==> r is Ok && final(self)@ == old(self)@ + spec_int(v as int),
            v > 0xffff_ffff_ffff_ffff ==> r == Err::<(), EncodeError>(EncodeError::UnsignedOutOfRange)
                && final(self)@ == old(self)@,
    {
        if 0xffff_ffff_ffff_ffffu128 < v {
            return Err(EncodeError::UnsignedOutOfRange);
        }
        write_head(&mut self.writer, MAJOR_UNSIGNED, v as u64);
        Ok(())
    }

    /// A float, given by the bits of its double-precision value (single-precision floats are
    /// widened first): always eight bytes, and only finite numbers.
    pub fn serialize_f64_bits(&mut self, bits: u64) -> (r: Result<(), EncodeError>)
        ensures
            is_finite_bits(bits) ==> r is Ok && final(self)@ == old(self)@ + spec_float64(bits),
            !is_finite_bits(bits) ==> r == Err::<(), EncodeError>(EncodeError::NonFiniteFloat)
                && final(self)@ == old(self)@,
    {
        if (bits >> 52u64) & 0x7ff == 0x7ff {
            return Err(EncodeError::NonFiniteFloat);
        }
        write_float64(&mut self.writer, bits);
        Ok(())
    }

    pub fn serialize_str(&mut self, v: &str)
        ensures
            final(self)@ == old(self)@ + spec_text(v.spec_bytes()),
    {
        let b = v.as_bytes();
        write_head(&mut self.writer, MAJOR_TEXT, b.len() as u64);
        write_raw(&mut self.writer, b);
        assert(final(self)@ =~= old(self)@ + spec_text(v.spec_bytes()));
    }

    pub fn serialize_bytes(&mut self, v: &[u8])
        ensures
            final(self)@ == old(self)@ + spec_bytes(v@),
    {
        write_head(&mut self.writer, MAJOR_BYTES, v.len() as u64);
        write_raw(&mut self.writer, v);
        assert(final(self)@ =~= old(self)@ + spec_bytes(v@));
    }

    pub fn serialize_none(&mut self)
        ensures
            final(self)@ == old(self)@ + spec_null(),
    {
        self.writer.push(NULL);
    }

    /// The unit value is written as null.
    pub fn serialize_unit(&mut self)
        ensures
            final(self)@ == old(self)@ + spec_null(),
    {
        self.writer.push(NULL);
    }

    /// A variant without data is written as its name.
    pub fn serialize_unit_variant(&mut self, variant: &str)
        ensures
            final(self)@ == old(self)@ + spec_text(variant.spec_bytes()),
    {
        self.serialize_str(variant);
    }

    /// The start of a variant that carries one value: a map of one entry keyed by the
    /// variant's name. The value follows.
    pub fn serialize_newtype_variant(&mut self, variant: &str)
        ensures
            final(self)@ == old(self)@ + spec_variant_key(variant.spec_bytes()),
    {
        write_head(&mut self.writer, MAJOR_MAP, 1);
        self.serialize_str(variant);
        assert(final(self)@ =~= old(self)@ + spec_variant_key(variant.spec_bytes()));
    }

    /// A CID, given by its bytes: a byte string under the CID tag.
    pub fn serialize_cid_link(&mut self, v: &[u8])
        ensures
            final(self)@ == old(self)@ + spec_cid_link(v@),
    {
        write_head(&mut self.writer, MAJOR_TAG, CBOR_TAGS_CID);
        self.serialize_bytes(v);
        assert(final(self)@ =~= old(self)@ + spec_cid_link(v@));
    }

    /// The start of a list. When its length is known the head is written now; otherwise the
    /// elements are collected in a buffer and counted.
    pub fn serialize_seq(&mut self, len: Option<usize>) -> (c: CollectSeq)
        ensures
            c.count == 0,
            match len {
                Some(n) => final(self)@ == old(self)@ + spec_head(MAJOR_ARRAY, n as u64)
                    && c.mem_ser is None,
                None => final(self)@ == old(self)@ && (c.mem_ser matches Some(m) && m@
                    == Seq::<u8>::empty()),
            },
            list_state(c, len, old(self)@, final(self)@, Seq::<u8>::empty()),
    {
        let mem_ser = match len {
            Some(n) => {
                write_head(&mut self.writer, MAJOR_ARRAY, n as u64);
                None
            },
            None => Some(Serializer::new(Vec::new())),
        };
        CollectSeq { count: 0, mem_ser }
    }

    /// The start of a tuple: a list of known length.
    pub fn serialize_tuple(&mut self, len: usize) -> (c: BoundedCollect)
        ensures
            final(self)@ == old(self)@ + spec_head(MAJOR_ARRAY, len as u64),
    {
        write_head(&mut self.writer, MAJOR_ARRAY, len as u64);
        BoundedCollect
    }

    /// The start of a tuple struct: a list of known length.
    pub fn serialize_tuple_struct(&mut self, len: usize) -> (c: BoundedCollect)
        ensures
            final(self)@ == old(self)@ + spec_head(MAJOR_ARRAY, len as u64),
    {
        self.serialize_tuple(len)
    }

    /// The start of a tuple variant: a map of one entry keyed by the variant's name, whose
    /// value is a list of known length.
    pub fn serialize_tuple_variant(&mut self, variant: &str, len: usize) -> (c: BoundedCollect)
        ensures
            final(self)@ == old(self)@ + spec_variant_key(variant.spec_bytes()) + spec_head(
                MAJOR_ARRAY,
                len as u64,
            ),
    {
        self.serialize_newtype_variant(variant);
        write_head(&mut self.writer, MAJOR_ARRAY, len as u64);
        BoundedCollect
    }

    /// The start of a map: its entries are collected, and the head is written at the end.
    pub fn serialize_map(&mut self, len: Option<usize>) -> (c: CollectMap)
        ensures
            final(self)@ == old(self)@,
            c.entries() == Seq::<Seq<u8>>::empty(),
            c.buffered() == Seq::<u8>::empty(),
    {
        CollectMap::new()
    }

    /// The start of a struct: a map whose head is written now.
    pub fn serialize_struct(&mut self, len: usize) -> (c: CollectMap)
        ensures
            final(self)@ == old(self)@ + spec_head(MAJOR_MAP, len as u64),
            c.entries() == Seq::<Seq<u8>>::empty(),
            c.buffered() == Seq::<u8>::empty(),
    {
        write_head(&mut self.writer, MAJOR_MAP, len as u64);
        CollectMap::new()
    }

    /// The start of a struct variant: a map of one entry keyed by the variant's name, whose
    /// value is a map of `len` entries.
    pub fn serialize_struct_variant(&mut self, variant: &str, len: usize) -> (c: CollectMap)
        ensures
            final(self)@ == old(self)@ + spec_variant_key(variant.spec_bytes()) + spec_head(
                MAJOR_MAP,
                len as u64,
            ),
            c.entries() == Seq::<Seq<u8>>::empty(),
            c.buffered() == Seq::<u8>::empty(),
    {
        self.serialize_newtype_variant(variant);
        write_head(&mut self.writer, MAJOR_MAP, len as u64);
        CollectMap::new()
    }
}

/// The state of a list being written. When the length was not known, `mem_ser` buffers the
/// elements and `count` counts them; elements are written into `mem_ser` when it is present,
/// else straight to the serializer.
pub struct CollectSeq {
    /// The number of elements. This is used in case the number of elements is not known
    /// beforehand.
    pub count: usize,
    /// An in-memory serializer in case the number of elements is not known beforehand.
    pub mem_ser: Option<Serializer>,
}

impl CollectSeq {
    /// Counts one more element.
    pub fn note_element(&mut self)
        requires
            old(self).count < usize::MAX,
        ensures
            final(self).count == old(self).count + 1,
            final(self).mem_ser == old(self).mem_ser,
    {
        self.count = self.count + 1;
    }

    /// Where the next element is written: the buffer when the length was not announced, else
    /// the serializer itself.
    pub fn element_writer<'a>(&'a mut self, ser: &'a mut Serializer) -> (w: &'a mut Serializer)
        ensures
            element_routed(*old(self), *final(self), old(ser)@, final(ser)@, w@, final(w)@),
    {
        match &mut self.mem_ser {
            Some(m) => m,
            None => ser,
        }
    }

    /// Ends the list: buffered elements are written after a head that gives their count.
    pub fn end(self, ser: &mut Serializer)
        ensures
            match self.mem_ser {
                Some(m) => final(ser)@ == old(ser)@ + spec_head(MAJOR_ARRAY, self.count as u64)
                    + m@,
                None => final(ser)@ == old(ser)@,
            },
    {
        match self.mem_ser {
            Some(m) => {
                write_head(&mut ser.writer, MAJOR_ARRAY, self.count as u64);
                let bytes = m.into_inner();
                write_raw(&mut ser.writer, bytes.as_slice());
            },
            None => {},
        }
    }
}

/// Where a list stands: `start` is what the writer held when the list began, `announced` the
/// length given then, `ser` what the writer holds now, and `body` the encodings of the
/// elements written so far, one after the other. With the length announced, the head and
/// the elements are in the writer; without it, the writer is untouched and the elements are
/// in the buffer.
pub open spec fn list_state(
    c: CollectSeq,
    announced: Option<usize>,
    start: Seq<u8>,
    ser: Seq<u8>,
    body: Seq<u8>,
) -> bool {
    match announced {
        Some(n) => c.mem_ser is None && ser == start + spec_head(MAJOR_ARRAY, n as u64) + body,
        None => ser == start && (c.mem_ser matches Some(m) && m@ == body),
    }
}

/// Writing one more element through the list's element writer adds its encoding to the body.
pub proof fn lemma_list_element(
    c0: CollectSeq,
    c1: CollectSeq,
    announced: Option<usize>,
    start: Seq<u8>,
    ser0: Seq<u8>,
    ser1: Seq<u8>,
    body: Seq<u8>,
    w0: Seq<u8>,
    elem: Seq<u8>,
)
    requires
        list_state(c0, announced, start, ser0, body),
        element_routed(c0, c1, ser0, ser1, w0, w0 + elem),
    ensures
        list_state(c1, announced, start, ser1, body + elem),
{
    match announced {
        Some(n) => {
            assert(ser1 == start + spec_head(MAJOR_ARRAY, n as u64) + body + elem);
            assert(start + spec_head(MAJOR_ARRAY, n as u64) + body + elem =~= start + spec_head(
                MAJOR_ARRAY,
                n as u64,
            ) + (body + elem));
        },
        None => {},
    }
}

/// A list ends with the same bytes whether its length was announced or counted: the head
/// with the number of elements, then the elements, after what the writer held at the start.
pub proof fn lemma_list_end(
    c: CollectSeq,
    announced: Option<usize>,
    start: Seq<u8>,
    ser: Seq<u8>,
    body: Seq<u8>,
    out: Seq<u8>,
)
    requires
        list_state(c, announced, start, ser, body),
        announced matches Some(n) ==> c.count == n,
        out == (match c.mem_ser {
            Some(m) => ser + spec_head(MAJOR_ARRAY, c.count as u64) + m@,
            None => ser,
        }),
    ensures
        out == start + spec_head(MAJOR_ARRAY, c.count as u64) + body,
{
}

/// How the element writer of a list relates the states before (`c0`, `ser0`, the element
/// writer's bytes `w0`) and after (`c1`, `ser1`, `w1`) an element is written through it.
pub open spec fn element_routed(
    c0: CollectSeq,
    c1: CollectSeq,
    ser0: Seq<u8>,
    ser1: Seq<u8>,
    w0: Seq<u8>,
    w1: Seq<u8>,
) -> bool {
    &&& c1.count == c0.count
    &&& match c0.mem_ser {
        Some(m) => w0 == m@ && ser1 == ser0 && (c1.mem_ser matches Some(m1) && m1@ == w1),
        None => w0 == ser0 && c1.mem_ser is None && ser1 == w1,
    }
}

/// Helper for processing collections of known length: their elements are written straight
/// to the serializer, and nothing is written at the end.
pub struct BoundedCollect;

impl BoundedCollect {
    /// Ends the collection.
    pub fn end(self) {
    }
}

/// The state of a map being written.
///
/// CBOR RFC-7049 specifies a canonical sort order, where keys are sorted by length first. This
/// was later revised with RFC-8949, but we need to stick to the RFC 7049 order to stay
/// compatible with existing data. Each map entry (the key and the value) is first written into
/// `buffer`, then kept; at the end the entries are sorted and written out.
pub struct CollectMap {
    buffer: Serializer,
    entries: Vec<Vec<u8>>,
}

/// The byte strings of a list of vectors.
pub open spec fn vec_views(v: Seq<Vec<u8>>) -> Seq<Seq<u8>> {
    v.map_values(|e: Vec<u8>| e@)
}

/// The bytes DRISL writes for a set of encoded map entries: the entries in ascending byte
/// order, one after the other.
pub open spec fn is_sorted_output(entries: Seq<Seq<u8>>, out: Seq<u8>) -> bool {
    exists|sorted: Seq<Seq<u8>>|
        sorted_bytes(sorted) && sorted.to_multiset() == entries.to_multiset() && out
            == sorted.flatten()
}

/// Two ascending arrangements of one multiset of byte strings are the same sequence.
pub proof fn lemma_sorted_unique(a: Seq<Seq<u8>>, b: Seq<Seq<u8>>)
    requires
        sorted_bytes(a),
        sorted_bytes(b),
        a.to_multiset() == b.to_multiset(),
    ensures
        a == b,
    decreases a.len(),
{
    a.to_multiset_ensures();
    b.to_multiset_ensures();
    if a.len() == 0 {
        assert(b.len() == 0);
        assert(a =~= b);
    } else {
        assert(b.len() == a.len());
        assert(a.contains(b[0])) by {
            assert(b.to_multiset().count(b[0]) > 0) by {
                assert(b.contains(b[0]));
            }
        }
        assert(b.contains(a[0])) by {
            assert(a.to_multiset().count(a[0]) > 0) by {
                assert(a.contains(a[0]));
            }
        }
        let i = choose|i: int| 0 <= i < a.len() && a[i] == b[0];
        let j = choose|j: int| 0 <= j < b.len() && b[j] == a[0];
        if i > 0 {
            assert(bytes_le(a[0], a[i]));
        }
        if j > 0 {
            assert(bytes_le(b[0], b[j]));
        }
        cbor::lemma_bytes_lt_total(a[0], b[0]);
        assert(a[0] == b[0]);
        let ra = a.drop_first();
        let rb = b.drop_first();
        assert(a.remove(0) =~= ra);
        assert(b.remove(0) =~= rb);
        assert(ra.to_multiset() == rb.to_multiset());
        assert(sorted_bytes(ra)) by {
            assert forall|x: int, y: int| 0 <= x < y < ra.len() implies bytes_le(
                #[trigger] ra[x],
                #[trigger] ra[y],
            ) by {
                assert(ra[x] == a[x + 1] && ra[y] == a[y + 1]);
            }
        }
        assert(sorted_bytes(rb)) by {
            assert forall|x: int, y: int| 0 <= x < y < rb.len() implies bytes_le(
                #[trigger] rb[x],
                #[trigger] rb[y],
            ) by {
                assert(rb[x] == b[x + 1] && rb[y] == b[y + 1]);
            }
        }
        lemma_sorted_unique(ra, rb);
        assert(a =~= b) by {
            assert forall|x: int| 0 <= x < a.len() implies a[x] == b[x] by {
                if x > 0 {
                    assert(a[x] == ra[x - 1] && b[x] == rb[x - 1]);
                }
            }
        }
    }
}

/// The bytes written for a map depend only on which entries it has (with repeats), not on
/// the order in which they were added: two outputs that are sorted arrangements of the same
/// entries are equal.
pub proof fn lemma_map_output_deterministic(
    entries1: Seq<Seq<u8>>,
    entries2: Seq<Seq<u8>>,
    out1: Seq<u8>,
    out2: Seq<u8>,
)
    requires
        entries1.to_multiset() == entries2.to_multiset(),
        is_sorted_output(entries1, out1),
        is_sorted_output(entries2, out2),
    ensures
        out1 == out2,
{
    let s1 = choose|s: Seq<Seq<u8>>|
        sorted_bytes(s) && s.to_multiset() == entries1.to_multiset() && out1 == s.flatten();
    let s2 = choose|s: Seq<Seq<u8>>|
        sorted_bytes(s) && s.to_multiset() == entries2.to_multiset() && out2 == s.flatten();
    lemma_sorted_unique(s1, s2);
}

/// `bytes_le` is transitive.
proof fn lemma_bytes_le_transitive(a: Seq<u8>, b: Seq<u8>, c: Seq<u8>)
    ensures
        bytes_le(a, b) && bytes_le(b, c) ==> bytes_le(a, c),
{
    cbor::lemma_bytes_lt_total(a, b);
    cbor::lemma_bytes_lt_transitive(c, a, b);
}

/// The multiset of a concatenation is the sum of the multisets.
proof fn lemma_multiset_concat(x: Seq<Seq<u8>>, y: Seq<Seq<u8>>)
    ensures
        (x + y).to_multiset() =~= x.to_multiset().add(y.to_multiset()),
    decreases y.len(),
{
    broadcast use vstd::seq_lib::group_to_multiset_ensures;

    if y.len() == 0 {
        assert(x + y =~= x);
    } else {
        lemma_multiset_concat(x, y.drop_last());
        assert(x + y =~= (x + y.drop_last()).push(y.last()));
        assert(y =~= y.drop_last().push(y.last()));
    }
}

/// Merges two ascending lists of byte strings into one.
fn merge(a: Vec<Vec<u8>>, b: Vec<Vec<u8>>) -> (r: Vec<Vec<u8>>)
    requires
        sorted_bytes(vec_views(a@)),
        sorted_bytes(vec_views(b@)),
    ensures
        sorted_bytes(vec_views(r@)),
        vec_views(r@).to_multiset() == vec_views(a@).to_multiset().add(vec_views(b@).to_multiset()),
{
    broadcast use vstd::seq_lib::group_to_multiset_ensures;

    let ghost va = vec_views(a@);
    let ghost vb = vec_views(b@);
    let mut out: Vec<Vec<u8>> = Vec::new();
    let mut i: usize = 0;
    let mut j: usize = 0;
    assert(va.take(0).to_multiset().add(vb.take(0).to_multiset()) =~= vec_views(out@).to_multiset());
    while i < a.len() || j < b.len()
        invariant
            va == vec_views(a@),
            vb == vec_views(b@),
            sorted_bytes(va),
            sorted_bytes(vb),
            i <= a@.len(),
            j <= b@.len(),
            vec_views(out@).to_multiset() == va.take(i as int).to_multiset().add(
                vb.take(j as int).to_multiset(),
            ),
            sorted_bytes(vec_views(out@)),
            forall|p: int, q: int|
                0 <= p < out@.len() && i <= q < va.len() ==> bytes_le(
                    #[trigger] vec_views(out@)[p],
                    #[trigger] va[q],
                ),
            forall|p: int, q: int|
                0 <= p < out@.len() && j <= q < vb.len() ==> bytes_le(
                    #[trigger] vec_views(out@)[p],
                    #[trigger] vb[q],
                ),
        decreases a@.len() - i + b@.len() - j,
    {
        let take_a = if i == a.len() {
            false
        } else if j == b.len() {
            true
        } else {
            !bytes_less(b[j].as_slice(), a[i].as_slice())
        };
        let ghost old_out = vec_views(out@);
        let ghost x: Seq<u8> = if take_a {
            va[i as int]
        } else {
            vb[j as int]
        };
        let ghost ta = va.take(i as int);
        let ghost tb = vb.take(j as int);
        if take_a {
            out.push(vstd::slice::slice_to_vec(a[i].as_slice()));
            proof {
                assert(va.take(i + 1) =~= va.take(i as int).push(x));
                ta.to_multiset_ensures();
            }
            i = i + 1;
        } else {
            out.push(vstd::slice::slice_to_vec(b[j].as_slice()));
            proof {
                assert(vb.take(j + 1) =~= vb.take(j as int).push(x));
                tb.to_multiset_ensures();
            }
            j = j + 1;
        }
        proof {
            let o = vec_views(out@);
            assert(o =~= old_out.push(x));
            old_out.to_multiset_ensures();
            assert(o.to_multiset() =~= va.take(i as int).to_multiset().add(
                vb.take(j as int).to_multiset(),
            ));
            // the new element comes no earlier than those before it, and no later than the
            // rest of either list
            assert forall|q: int| i <= q < va.len() implies bytes_le(x, #[trigger] va[q]) by {
                if take_a {
                    assert(va[i - 1] == x);
                } else {
                    cbor::lemma_bytes_lt_total(x, va[i as int]);
                    cbor::lemma_bytes_lt_asymmetric(x, va[i as int]);
                    if (i as int) < q {
                        lemma_bytes_le_transitive(x, va[i as int], va[q]);
                    }
                }
            }
            assert forall|q: int| j <= q < vb.len() implies bytes_le(x, #[trigger] vb[q]) by {
                if take_a {
                    cbor::lemma_bytes_lt_irreflexive(vb[j as int]);
                    if (j as int) < q {
                        lemma_bytes_le_transitive(x, vb[j as int], vb[q]);
                    }
                } else {
                    assert(vb[j - 1] == x);
                }
            }
            assert forall|p: int, q: int|
                0 <= p < o.len() && i <= q < va.len() implies bytes_le(
                #[trigger] o[p],
                #[trigger] va[q],
            ) by {
                if p < old_out.len() {
                    assert(o[p] == old_out[p]);
                }
            }
            assert forall|p: int, q: int|
                0 <= p < o.len() && j <= q < vb.len() implies bytes_le(
                #[trigger] o[p],
                #[trigger] vb[q],
            ) by {
                if p < old_out.len() {
                    assert(o[p] == old_out[p]);
                }
            }
            assert forall|p: int, q: int| 0 <= p < q < o.len() implies bytes_le(
                #[trigger] o[p],
                #[trigger] o[q],
            ) by {
                if q < old_out.len() {
                    assert(o[p] == old_out[p] && o[q] == old_out[q]);
                } else {
                    assert(o[p] == old_out[p]);
                    assert(o[q] == x);
                    if take_a {
                        assert(bytes_le(old_out[p], va[i - 1]));
                    } else {
                        assert(bytes_le(old_out[p], vb[j - 1]));
                    }
                }
            }
        }
    }
    assert(va.take(a@.len() as int) =~= va);
    assert(vb.take(b@.len() as int) =~= vb);
    out
}

/// Sorts byte strings in ascending order, by merging sorted halves.
fn merge_sort(v: &[Vec<u8>]) -> (sorted: Vec<Vec<u8>>)
    ensures
        sorted_bytes(vec_views(sorted@)),
        vec_views(sorted@).to_multiset() == vec_views(v@).to_multiset(),
    decreases v@.len(),
{
    let n = v.len();
    if n <= 1 {
        let mut r: Vec<Vec<u8>> = Vec::new();
        if n == 1 {
            r.push(vstd::slice::slice_to_vec(v[0].as_slice()));
        }
        assert(vec_views(r@) =~= vec_views(v@));
        return r;
    }
    let mid = n / 2;
    let left = merge_sort(&v[0..mid]);
    let right = merge_sort(&v[mid..n]);
    proof {
        let l = vec_views(v@.subrange(0, mid as int));
        let rr = vec_views(v@.subrange(mid as int, n as int));
        assert(vec_views(v@) =~= l + rr);
        lemma_multiset_concat(l, rr);
    }
    merge(left, right)
}

/// Sorts the encoded entries of a map in ascending byte order.
fn sort_entries(entries: Vec<Vec<u8>>) -> (sorted: Vec<Vec<u8>>)
    ensures
        sorted_bytes(vec_views(sorted@)),
        vec_views(sorted@).to_multiset() == vec_views(entries@).to_multiset(),
{
    merge_sort(entries.as_slice())
}

impl CollectMap {
    /// The bytes of the entry being written.
    pub closed spec fn buffered(&self) -> Seq<u8> {
        self.buffer@
    }

    /// The encoded entries collected so far.
    pub closed spec fn entries(&self) -> Seq<Seq<u8>> {
        vec_views(self.entries@)
    }

    fn new() -> (c: CollectMap)
        ensures
            c.entries() == Seq::<Seq<u8>>::empty(),
            c.buffered() == Seq::<u8>::empty(),
    {
        let c = CollectMap { buffer: Serializer::new(Vec::new()), entries: Vec::new() };
        assert(c.entries() =~= Seq::<Seq<u8>>::empty());
        c
    }

    /// The serializer of the entry being written: what is written through it becomes the
    /// buffered entry, and the kept entries do not change.
    pub fn entry_buffer(&mut self) -> (b: &mut Serializer)
        ensures
            b@ == old(self).buffered(),
            final(b)@ == final(self).buffered(),
            final(self).entries() == old(self).entries(),
    {
        &mut self.buffer
    }

    /// Writes the key of a struct field into the entry buffer; the value follows it there.
    pub fn serialize_field_key(&mut self, key: &str)
        ensures
            final(self).buffered() == old(self).buffered() + spec_text(key.spec_bytes()),
            final(self).entries() == old(self).entries(),
    {
        self.buffer.serialize_str(key);
    }

    /// Keeps the buffered entry (a key and its value) and empties the buffer.
    pub fn finish_entry(&mut self)
        ensures
            final(self).entries() == old(self).entries().push(old(self).buffered()),
            final(self).buffered() == Seq::<u8>::empty(),
    {
        let entry = vstd::slice::slice_to_vec(self.buffer.buffer());
        let ghost before = self.entries@;
        self.entries.push(entry);
        assert(vec_views(self.entries@) =~= vec_views(before).push(entry@));
        self.buffer.clear();
    }

    /// Ends a struct (whose head is already written): the entries, sorted.
    pub fn end(self, ser: &mut Serializer)
        ensures
            ({
                let written = final(ser)@.skip(old(ser)@.len() as int);
                &&& final(ser)@.len() >= old(ser)@.len()
                &&& final(ser)@.take(old(ser)@.len() as int) == old(ser)@
                &&& is_sorted_output(self.entries(), written)
            }),
    {
        let ghost entries = self.entries();
        let sorted = sort_entries(self.entries);
        let ghost sv = vec_views(sorted@);
        let n = sorted.len();
        let ghost start = ser@;
        let mut i: usize = 0;
        while i < n
            invariant
                n == sorted@.len(),
                sv == vec_views(sorted@),
                i <= n,
                ser@ == start + sv.take(i as int).flatten(),
            decreases n - i,
        {
            let ghost before = ser@;
            ser.push(sorted[i].as_slice());
            proof {
                assert(sv.take(i + 1) =~= sv.take(i as int).push(sv[i as int]));
                sv.take(i as int).lemma_flatten_push(sv[i as int]);
            }
            i = i + 1;
        }
        proof {
            assert(sv.take(n as int) =~= sv);
            assert(ser@.skip(start.len() as int) =~= sv.flatten());
            assert(ser@.take(start.len() as int) =~= start);
        }
    }

    /// Ends a map: a head that gives the number of entries, then the entries, sorted.
    pub fn end_map(self, ser: &mut Serializer)
        ensures
            ({
                let head = spec_head(MAJOR_MAP, self.entries().len() as u64);
                let written = final(ser)@.skip((old(ser)@.len() + head.len()) as int);
                &&& final(ser)@.len() >= old(ser)@.len() + head.len()
                &&& final(ser)@.take((old(ser)@.len() + head.len()) as int) == old(ser)@ + head
                &&& is_sorted_output(self.entries(), written)
            }),
    {
        let ghost start = ser@;
        write_head(&mut ser.writer, MAJOR_MAP, self.entries.len() as u64);
        let ghost mid = ser@;
        self.end(ser);
        proof {
            let head = spec_head(MAJOR_MAP, self.entries().len() as u64);
            assert(mid == start + head);
            assert(ser@.take((start.len() + head.len()) as int) =~= ser@.take(mid.len() as int));
            assert(ser@.skip((start.len() + head.len()) as int) =~= ser@.skip(mid.len() as int));
        }
    }
}

// ---------------------------------------------------------------------------------------------
// Building values of the data model.
/// Serializer that builds a DRISL [`Value`].
pub struct ValueSerializer;

/// A map of one entry.
pub open spec fn single_entry(key: Seq<char>, v: Value) -> Seq<(Seq<char>, Value)> {
    seq![(key, v)]
}

/// A map holding the single entry `key: v`.
fn single_entry_map(key: &str, v: Value) -> (m: ValueMap)
    ensures
        m.wf(),
        m@ == single_entry(key@, v),
{
    let mut m = ValueMap::new();
    m.insert(key.to_owned(), v);
    m
}

impl ValueSerializer {
    pub fn serialize_bool(&mut self, v: bool) -> (r: Value)
        ensures
            r == Value::Bool(v),
    {
        Value::Bool(v)
    }

    /// A signed integer (the narrower signed types widen to this one).
    pub fn serialize_i64(&mut self, v: i64) -> (r: Value)
        ensures
            r == Value::Integer(v as i128),
    {
        Value::Integer(v as i128)
    }

    /// An unsigned integer (the narrower unsigned types widen to this one).
    pub fn serialize_u64(&mut self, v: u64) -> (r: Value)
        ensures
            r == Value::Integer(v as i128),
    {
        Value::Integer(v as i128)
    }

    /// A float, given by the bits of its double-precision value; only finite numbers.
    pub fn serialize_f64_bits(&mut self, bits: u64) -> (r: Result<Value, EncodeError>)
        ensures
            is_finite_bits(bits) ==> r == Ok::<Value, EncodeError>(Value::Float(bits)),
            !is_finite_bits(bits) ==> r == Err::<Value, EncodeError>(EncodeError::NonFiniteFloat),
    {
        if (bits >> 52u64) & 0x7ff == 0x7ff {
            Err(EncodeError::NonFiniteFloat)
        } else {
            Ok(Value::Float(bits))
        }
    }

    pub fn serialize_char(&mut self, v: char) -> (r: Value)
        ensures
            r matches Value::Text(s) && s@ == seq![v],
    {
        let mut s = String::new();
        push_char(&mut s, v);
        Value::Text(s)
    }

    pub fn serialize_str(&mut self, v: &str) -> (r: Value)
        ensures
            r matches Value::Text(s) && s@ == v@,
    {
        Value::Text(v.to_owned())
    }

    pub fn serialize_bytes(&mut self, v: &[u8]) -> (r: Value)
        ensures
            r matches Value::Bytes(b) && b@ == v@,
    {
        Value::Bytes(vstd::slice::slice_to_vec(v))
    }

    pub fn serialize_none(&mut self) -> (r: Value)
        ensures
            r == Value::Null,
    {
        Value::Null
    }

    /// The unit value is null.
    pub fn serialize_unit(&mut self) -> (r: Value)
        ensures
            r == Value::Null,
    {
        Value::Null
    }

    /// A variant without data is its name.
    pub fn serialize_unit_variant(&mut self, variant: &str) -> (r: Value)
        ensures
            r matches Value::Text(s) && s@ == variant@,
    {
        self.serialize_str(variant)
    }

    /// A CID, given by its bytes: the byte string of its tagged encoding.
    pub fn serialize_cid_link(&mut self, v: &[u8]) -> (r: Value)
        ensures
            r matches Value::Bytes(b) && b@ == spec_cid_link(v@),
    {
        let mut bytes = Serializer::new(Vec::new());
        bytes.serialize_cid_link(v);
        assert(Seq::<u8>::empty() + spec_cid_link(v@) =~= spec_cid_link(v@));
        Value::Bytes(bytes.into_inner())
    }

    /// A variant that carries one value: a map of one entry keyed by the variant's name.
    pub fn serialize_newtype_variant(&mut self, variant: &str, value: Value) -> (r: Value)
        ensures
            r matches Value::Mapping(m) && m.wf() && m@ == single_entry(variant@, value),
    {
        Value::Mapping(single_entry_map(variant, value))
    }

    /// The start of a list.
    pub fn serialize_seq(&mut self, len: Option<usize>) -> (s: ValueSerializerSeq)
        ensures
            s.items() == Seq::<Value>::empty(),
    {
        ValueSerializerSeq { seq: Vec::new() }
    }

    /// The start of a tuple: a list.
    pub fn serialize_tuple(&mut self, len: usize) -> (s: ValueSerializerSeq)
        ensures
            s.items() == Seq::<Value>::empty(),
    {
        self.serialize_seq(Some(len))
    }

    /// The start of a tuple struct: a list.
    pub fn serialize_tuple_struct(&mut self, len: usize) -> (s: ValueSerializerSeq)
        ensures
            s.items() == Seq::<Value>::empty(),
    {
        self.serialize_tuple(len)
    }

    /// The start of a tuple variant: a list under the variant's name.
    pub fn serialize_tuple_variant(&mut self, variant: &'static str, len: usize) -> (s:
        ValueSerializerTupleVariant)
        ensures
            s.items() == Seq::<Value>::empty(),
            s.variant_name() == variant@,
    {
        ValueSerializerTupleVariant { variant_name: variant, seq: Vec::new() }
    }

    /// The start of a map.
    pub fn serialize_map(&mut self, len: Option<usize>) -> (s: ValueSerializerMap)
        ensures
            s.entries() == Seq::<(Seq<char>, Value)>::empty(),
            s.staged_key() is None,
    {
        ValueSerializerMap { map: ValueMap::new(), staged_key: None }
    }

    /// The start of a struct: a map.
    pub fn serialize_struct(&mut self, len: usize) -> (s: ValueSerializerMap)
        ensures
            s.entries() == Seq::<(Seq<char>, Value)>::empty(),
            s.staged_key() is None,
    {
        ValueSerializerMap { map: ValueMap::new(), staged_key: None }
    }

    /// The start of a struct variant: a map under the variant's name.
    pub fn serialize_struct_variant(&mut self, variant: &'static str, len: usize) -> (s:
        ValueSerializerStructVariant)
        ensures
            s.entries() == Seq::<(Seq<char>, Value)>::empty(),
            s.variant_name() == variant@,
    {
        ValueSerializerStructVariant { variant_name: variant, map: ValueMap::new() }
    }
}

/// A list of values being built.
pub struct ValueSerializerSeq {
    seq: Vec<Value>,
}

impl ValueSerializerSeq {
    /// The elements so far.
    pub closed spec fn items(&self) -> Seq<Value> {
        self.seq@
    }

    pub fn serialize_element(&mut self, value: Value)
        ensures
            final(self).items() == old(self).items().push(value),
    {
        self.seq.push(value);
    }

    /// The list: the elements in the order they came.
    pub fn end(self) -> (r: Value)
        ensures
            r matches Value::Array(v) && v@ == self.items(),
    {
        Value::Array(self.seq)
    }
}

/// A tuple variant being built: a list under the variant's name.
pub struct ValueSerializerTupleVariant {
    variant_name: &'static str,
    seq: Vec<Value>,
}

impl ValueSerializerTupleVariant {
    pub closed spec fn items(&self) -> Seq<Value> {
        self.seq@
    }

    pub closed spec fn variant_name(&self) -> Seq<char> {
        self.variant_name@
    }

    pub fn serialize_field(&mut self, value: Value)
        ensures
            final(self).items() == old(self).items().push(value),
            final(self).variant_name() == old(self).variant_name(),
    {
        self.seq.push(value);
    }

    /// A map of one entry: the variant's name, and the list of the fields.
    pub fn end(self) -> (r: Value)
        ensures
            r matches Value::Mapping(m) && m.wf() && m@.len() == 1 && m@[0].0 == self.variant_name()
                && (m@[0].1 matches Value::Array(v) && v@ == self.items()),
    {
        let items = Value::Array(self.seq);
        let m = single_entry_map(self.variant_name, items);
        Value::Mapping(m)
    }
}

/// A map or struct being built.
pub struct ValueSerializerMap {
    map: ValueMap,
    staged_key: Option<String>,
}

impl ValueSerializerMap {

    /// The entries so far, in key order.
    pub closed spec fn entries(&self) -> Seq<(Seq<char>, Value)> {
        self.map@
    }

    /// The key given for the value that comes next.
    pub closed spec fn staged_key(&self) -> Option<Seq<char>> {
        match self.staged_key {
            Some(k) => Some(k@),
            None => None,
        }
    }

    /// Whether a key waits for its value.
    pub fn has_staged_key(&self) -> (b: bool)
        ensures
            b == (self.staged_key() is Some),
    {
        self.staged_key.is_some()
    }

    /// Takes the key of the next entry (keys must be strings).
    pub fn serialize_key(&mut self, key: String)
        ensures
            final(self).entries() == old(self).entries(),
            final(self).staged_key() == Some(key@),
    {
        self.staged_key = Some(key);
    }

    /// Sets the staged key to `value`.
    pub fn serialize_value(&mut self, value: Value)
        requires
            old(self).staged_key() is Some,
        ensures
            final(self).entries() == spec_insert(
                old(self).entries(),
                old(self).staged_key()->0,
                value,
            ),
            final(self).staged_key() is None,
    {
        let key = self.staged_key.take();
        match key {
            Some(k) => {
                self.map.insert(k, value);
            },
            None => {},
        }
    }

    /// Sets the field `key` to `value`.
    pub fn serialize_field(&mut self, key: &str, value: Value)
        ensures
            final(self).entries() == spec_insert(old(self).entries(), key@, value),
            final(self).staged_key() == old(self).staged_key(),
    {
        self.map.insert(key.to_owned(), value);
    }

    /// The map.
    pub fn end(self) -> (r: Value)
        ensures
            r matches Value::Mapping(m) && m.wf() && m@ == self.entries(),
    {
        proof {
            use_type_invariant(&self.map);
        }
        Value::Mapping(self.map)
    }
}

/// A struct variant being built: a map under the variant's name.
pub struct ValueSerializerStructVariant {
    variant_name: &'static str,
    map: ValueMap,
}

impl ValueSerializerStructVariant {

    pub closed spec fn entries(&self) -> Seq<(Seq<char>, Value)> {
        self.map@
    }

    pub closed spec fn variant_name(&self) -> Seq<char> {
        self.variant_name@
    }

    /// Sets the field `key` to `value`.
    pub fn serialize_field(&mut self, key: &str, value: Value)
        ensures
            final(self).entries() == spec_insert(old(self).entries(), key@, value),
            final(self).variant_name() == old(self).variant_name(),
    {
        self.map.insert(key.to_owned(), value);
    }

    /// A map of one entry: the variant's name, and the map of the fields.
    pub fn end(self) -> (r: Value)
        ensures
            r matches Value::Mapping(m) && m.wf() && m@.len() == 1 && m@[0].0 == self.variant_name()
                && (m@[0].1 matches Value::Mapping(inner) && inner.wf() && inner@ == self.entries()),
    {
        proof {
            use_type_invariant(&self.map);
        }
        let inner = Value::Mapping(self.map);
        let m = single_entry_map(self.variant_name, inner);
        Value::Mapping(m)
    }
}

} // verus!
