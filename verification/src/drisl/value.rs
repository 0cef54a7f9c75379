//! The DRISL data model: a value as it is written.
use vstd::prelude::*;
use vstd::utf8::encode_utf8;

use crate::drisl::cbor::{bytes_less, bytes_lt};
use crate::drisl::cbor;

verus! {

/// A DRISL value.
///
/// A float is held by its IEEE 754 bits; maps have text keys, kept in the order of their
/// UTF-8 bytes, each key once.
#[derive(Debug, PartialEq)]
pub enum Value {
    Null,
    Bool(bool),
    Integer(i128),
    Float(u64),
    Bytes(Vec<u8>),
    Text(String),
    Array(Vec<Value>),
    Mapping(ValueMap),
}

/// A map from text keys to values, ordered by the UTF-8 bytes of the keys.
#[derive(Debug, PartialEq)]
pub struct ValueMap {
    entries: Vec<(String, Value)>,
}

/// The order of map keys: by their UTF-8 bytes.
pub open spec fn key_lt(a: Seq<char>, b: Seq<char>) -> bool {
    bytes_lt(encode_utf8(a), encode_utf8(b))
}

/// Whether the keys of `s` are strictly ascending.
pub open spec fn keys_ascending(s: Seq<(Seq<char>, Value)>) -> bool {
    forall|i: int, j: int| 0 <= i < j < s.len() ==> key_lt(#[trigger] s[i].0, #[trigger] s[j].0)
}

/// The entries of a key-ordered map after setting `k` to `v`: the value of an equal key is
/// replaced, else the entry goes before the first greater key.
pub open spec fn spec_insert(s: Seq<(Seq<char>, Value)>, k: Seq<char>, v: Value) -> Seq<
    (Seq<char>, Value),
>
    decreases s.len(),
{
    if s.len() == 0 {
        seq![(k, v)]
    } else if s[0].0 == k {
        seq![(k, v)] + s.drop_first()
    } else if key_lt(k, s[0].0) {
        seq![(k, v)] + s
    } else {
        seq![s[0]] + spec_insert(s.drop_first(), k, v)
    }
}

/// The value of the first entry with key `k`.
pub open spec fn spec_lookup(s: Seq<(Seq<char>, Value)>, k: Seq<char>) -> Option<Value>
    decreases s.len(),
{
    if s.len() == 0 {
        None
    } else if s[0].0 == k {
        Some(s[0].1)
    } else {
        spec_lookup(s.drop_first(), k)
    }
}

/// Setting a key then reading it gives the value set, and reading any other key gives what
/// it gave before.
pub proof fn lemma_insert_lookup(s: Seq<(Seq<char>, Value)>, k: Seq<char>, v: Value, other: Seq<char>)
    ensures
        spec_lookup(spec_insert(s, k, v), k) == Some(v),
        other != k ==> spec_lookup(spec_insert(s, k, v), other) == spec_lookup(s, other),
    decreases s.len(),
{
    let r = spec_insert(s, k, v);
    if s.len() == 0 {
        assert(r[0] == (k, v));
        assert(r.drop_first() =~= Seq::<(Seq<char>, Value)>::empty());
        assert(spec_lookup(r.drop_first(), other) == None::<Value>);
        assert(other != k ==> spec_lookup(r, other) == spec_lookup(s, other));
    } else if s[0].0 == k {
        assert(r[0] == (k, v));
        assert(r.drop_first() =~= s.drop_first());
        assert(other != k ==> spec_lookup(r, other) == spec_lookup(s, other));
    } else if key_lt(k, s[0].0) {
        assert(r[0] == (k, v));
        assert(r.drop_first() =~= s);
        assert(other != k ==> spec_lookup(r, other) == spec_lookup(s, other));
    } else {
        lemma_insert_lookup(s.drop_first(), k, v, other);
        assert(r[0] == s[0]);
        assert(r.drop_first() =~= spec_insert(s.drop_first(), k, v));
        assert(other != k ==> spec_lookup(r, other) == spec_lookup(s, other));
    }
}

/// UTF-8 encoding is one-to-one.
proof fn lemma_key_bytes_injective(a: Seq<char>, b: Seq<char>)
    ensures
        encode_utf8(a) == encode_utf8(b) ==> a == b,
{
    vstd::utf8::encode_utf8_decode_utf8(a);
    vstd::utf8::encode_utf8_decode_utf8(b);
}

/// Where the scan for `k` stops, setting `k` replaces the entry there or goes in before it.
proof fn lemma_insert_at(s: Seq<(Seq<char>, Value)>, k: Seq<char>, v: Value, i: int)
    requires
        0 <= i <= s.len(),
        forall|j: int| 0 <= j < i ==> key_lt(#[trigger] s[j].0, k),
        i < s.len() ==> !key_lt(s[i].0, k),
    ensures
        spec_insert(s, k, v) == if i < s.len() && s[i].0 == k {
            s.update(i, (k, v))
        } else {
            s.insert(i, (k, v))
        },
    decreases i,
{
    if i == 0 {
        if s.len() > 0 && s[0].0 != k {
            lemma_key_bytes_injective(s[0].0, k);
            cbor::lemma_bytes_lt_total(encode_utf8(s[0].0), encode_utf8(k));
            assert(seq![(k, v)] + s =~= s.insert(0, (k, v)));
        } else if s.len() > 0 {
            assert(seq![(k, v)] + s.drop_first() =~= s.update(0, (k, v)));
        } else {
            assert(seq![(k, v)] =~= s.insert(0, (k, v)));
        }
    } else {
        let t = s.drop_first();
        assert(key_lt(s[0].0, k));
        cbor::lemma_bytes_lt_irreflexive(encode_utf8(k));
        cbor::lemma_bytes_lt_asymmetric(encode_utf8(s[0].0), encode_utf8(k));
        assert forall|j: int| 0 <= j < i - 1 implies key_lt(#[trigger] t[j].0, k) by {
            assert(t[j] == s[j + 1]);
        }
        lemma_insert_at(t, k, v, i - 1);
        if i < s.len() && s[i].0 == k {
            assert(seq![s[0]] + t.update(i - 1, (k, v)) =~= s.update(i, (k, v)));
        } else {
            assert(seq![s[0]] + t.insert(i - 1, (k, v)) =~= s.insert(i, (k, v)));
        }
    }
}

/// Entries with each key as its characters.
pub open spec fn entries_view(e: Seq<(String, Value)>) -> Seq<(Seq<char>, Value)> {
    e.map_values(|e: (String, Value)| (e.0@, e.1))
}

impl View for ValueMap {
    type V = Seq<(Seq<char>, Value)>;

    /// The entries, with each key as its characters.
    closed spec fn view(&self) -> Seq<(Seq<char>, Value)> {
        entries_view(self.entries@)
    }
}

impl ValueMap {
    /// The keys are strictly ascending.
    #[verifier::type_invariant]
    pub closed spec fn wf(&self) -> bool {
        keys_ascending(self@)
    }

    /// An empty map.
    pub fn new() -> (m: ValueMap)
        ensures
            m.wf(),
            m@ == Seq::<(Seq<char>, Value)>::empty(),
    {
        let m = ValueMap { entries: Vec::new() };
        assert(m@ =~= Seq::<(Seq<char>, Value)>::empty());
        m
    }

    /// The number of entries.
    pub fn len(&self) -> (n: usize)
        ensures
            n == self@.len(),
    {
        self.entries.len()
    }

    /// The entries, in key order.
    pub fn entries(&self) -> (e: &[(String, Value)])
        ensures
            e@.map_values(|e: (String, Value)| (e.0@, e.1)) == self@,
    {
        self.entries.as_slice()
    }

    /// Sets `key` to `value`, replacing the value of an equal key.
    pub fn insert(&mut self, key: String, value: Value)
        ensures
            final(self).wf(),
            final(self)@ == spec_insert(old(self)@, key@, value),
    {
        proof {
            use_type_invariant(&*self);
        }
        let ghost s = self@;
        let mut entries: Vec<(String, Value)> = Vec::new();
        std::mem::swap(&mut entries, &mut self.entries);
        assert(entries_view(entries@) == s);
        let n = entries.len();
        let mut i: usize = 0;
        while i < n
            invariant
                n == entries@.len(),
                s == entries_view(entries@),
                keys_ascending(s),
                i <= n,
                forall|j: int| 0 <= j < i ==> key_lt(#[trigger] s[j].0, key@),
            ensures
                i <= n,
                forall|j: int| 0 <= j < i ==> key_lt(#[trigger] s[j].0, key@),
                i < n ==> !key_lt(s[i as int].0, key@),
            decreases n - i,
        {
            let kb = key.as_str().as_bytes();
            let eb = entries[i].0.as_str().as_bytes();
            assert(s[i as int].0 == entries@[i as int].0@);
            if !bytes_less(eb, kb) {
                break;
            }
            i = i + 1;
        }
        proof {
            lemma_insert_at(s, key@, value, i as int);
        }
        let ghost k = key@;
        let kb = key.as_str().as_bytes();
        if i < n && !bytes_less(kb, entries[i].0.as_str().as_bytes()) {
            proof {
                let e = encode_utf8(s[i as int].0);
                assert(s[i as int].0 == entries@[i as int].0@);
                cbor::lemma_bytes_lt_total(e, encode_utf8(k));
                lemma_key_bytes_injective(s[i as int].0, k);
            }
            entries.set(i, (key, value));
            proof {
                assert(entries_view(entries@) =~= s.update(i as int, (k, value)));
                let t = entries_view(entries@);
                assert forall|a: int, b: int| 0 <= a < b < t.len() implies key_lt(
                    #[trigger] t[a].0,
                    #[trigger] t[b].0,
                ) by {
                    assert(t[a].0 == s[a].0);
                    assert(t[b].0 == s[b].0);
                }
            }
        } else {
            proof {
                if i < n {
                    assert(s[i as int].0 == entries@[i as int].0@);
                    assert(s[i as int].0 != k) by {
                        cbor::lemma_bytes_lt_irreflexive(encode_utf8(k));
                    }
                }
            }
            entries.insert(i, (key, value));
            proof {
                assert(entries_view(entries@) =~= s.insert(i as int, (k, value)));
                let t = entries_view(entries@);
                assert forall|a: int, b: int| 0 <= a < b < t.len() implies key_lt(
                    #[trigger] t[a].0,
                    #[trigger] t[b].0,
                ) by {
                    if b < i {
                    } else if a < i && b == i {
                    } else if a < i {
                        assert(t[b] == s[b - 1]);
                        if i < s.len() {
                            cbor::lemma_bytes_lt_total(encode_utf8(s[i as int].0), encode_utf8(k));
                            if (i as int) < b - 1 {
                                cbor::lemma_bytes_lt_transitive(
                                    encode_utf8(k),
                                    encode_utf8(s[i as int].0),
                                    encode_utf8(s[b - 1].0),
                                );
                            }
                            cbor::lemma_bytes_lt_transitive(
                                encode_utf8(s[a].0),
                                encode_utf8(k),
                                encode_utf8(s[b - 1].0),
                            );
                        }
                    } else if a == i {
                        assert(t[b] == s[b - 1]);
                        cbor::lemma_bytes_lt_total(encode_utf8(s[i as int].0), encode_utf8(k));
                        if (i as int) < b - 1 {
                            cbor::lemma_bytes_lt_transitive(
                                encode_utf8(k),
                                encode_utf8(s[i as int].0),
                                encode_utf8(s[b - 1].0),
                            );
                        }
                    } else {
                        assert(t[a] == s[a - 1]);
                        assert(t[b] == s[b - 1]);
                    }
                }
            }
        }
        self.entries = entries;
    }
}

} // verus!
