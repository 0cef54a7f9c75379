use dasl::drisl::error::EncodeError;
use dasl::drisl::ser::{Serializer, ValueSerializer};
use dasl::drisl::value::Value;

fn bytes_of(f: impl FnOnce(&mut Serializer)) -> Vec<u8> {
    let mut s = Serializer::new(Vec::new());
    f(&mut s);
    s.into_inner()
}

#[test]
fn integers_use_shortest_head() {
    assert_eq!(bytes_of(|s| s.serialize_u64(0)), vec![0x00]);
    assert_eq!(bytes_of(|s| s.serialize_u64(23)), vec![0x17]);
    assert_eq!(bytes_of(|s| s.serialize_u64(24)), vec![0x18, 0x18]);
    assert_eq!(bytes_of(|s| s.serialize_u64(255)), vec![0x18, 0xff]);
    assert_eq!(bytes_of(|s| s.serialize_u64(256)), vec![0x19, 0x01, 0x00]);
    assert_eq!(bytes_of(|s| s.serialize_u64(65536)), vec![0x1a, 0x00, 0x01, 0x00, 0x00]);
    assert_eq!(
        bytes_of(|s| s.serialize_u64(u64::MAX)),
        vec![0x1b, 0xff, 0xff, 0xff, 0xff, 0xff, 0xff, 0xff, 0xff]
    );
    assert_eq!(bytes_of(|s| s.serialize_i64(-1)), vec![0x20]);
    assert_eq!(bytes_of(|s| s.serialize_i64(-60)), vec![0x38, 0x3b]);
    assert_eq!(bytes_of(|s| s.serialize_i64(3000)), vec![0x19, 0x0b, 0xb8]);
    assert_eq!(bytes_of(|s| s.serialize_i64(-1000)), vec![0x39, 0x03, 0xe7]);
}

#[test]
fn wide_integers_are_range_checked() {
    let mut s = Serializer::new(Vec::new());
    assert_eq!(s.serialize_i128(-(u64::MAX as i128) - 1), Ok(()));
    assert_eq!(s.serialize_i128(u64::MAX as i128), Ok(()));
    assert_eq!(s.serialize_i128(-(u64::MAX as i128) - 2), Err(EncodeError::IntegerOutOfRange));
    assert_eq!(s.serialize_i128(u64::MAX as i128 + 1), Err(EncodeError::IntegerOutOfRange));
    assert_eq!(s.serialize_u128(u64::MAX as u128 + 1), Err(EncodeError::UnsignedOutOfRange));
    assert_eq!(s.serialize_u128(5), Ok(()));
    let mut expected = vec![0x3b, 0xff, 0xff, 0xff, 0xff, 0xff, 0xff, 0xff, 0xff];
    expected.extend_from_slice(&[0x1b, 0xff, 0xff, 0xff, 0xff, 0xff, 0xff, 0xff, 0xff]);
    expected.push(0x05);
    assert_eq!(s.into_inner(), expected);
}

#[test]
fn floats_are_eight_bytes_and_finite() {
    assert_eq!(
        bytes_of(|s| s.serialize_f64_bits(1.5f64.to_bits()).unwrap()),
        vec![0xfb, 0x3f, 0xf8, 0, 0, 0, 0, 0, 0]
    );
    assert_eq!(
        bytes_of(|s| s.serialize_f64_bits(f64::from(1.0f32).to_bits()).unwrap()),
        vec![0xfb, 0x3f, 0xf0, 0, 0, 0, 0, 0, 0]
    );
    let mut s = Serializer::new(Vec::new());
    assert_eq!(s.serialize_f64_bits(f64::NAN.to_bits()), Err(EncodeError::NonFiniteFloat));
    assert_eq!(s.serialize_f64_bits(f64::INFINITY.to_bits()), Err(EncodeError::NonFiniteFloat));
    assert_eq!(
        s.serialize_f64_bits(f64::NEG_INFINITY.to_bits()),
        Err(EncodeError::NonFiniteFloat)
    );
    assert!(s.into_inner().is_empty());
}

#[test]
fn simple_values() {
    assert_eq!(bytes_of(|s| s.serialize_bool(true)), vec![0xf5]);
    assert_eq!(bytes_of(|s| s.serialize_bool(false)), vec![0xf4]);
    assert_eq!(bytes_of(|s| s.serialize_none()), vec![0xf6]);
    assert_eq!(bytes_of(|s| s.serialize_unit()), vec![0xf6]);
    assert_eq!(bytes_of(|s| s.serialize_str("test")), vec![0x64, b't', b'e', b's', b't']);
    assert_eq!(bytes_of(|s| s.serialize_str("")), vec![0x60]);
    assert_eq!(bytes_of(|s| s.serialize_bytes(&[1, 2])), vec![0x42, 1, 2]);
    assert_eq!(bytes_of(|s| s.serialize_unit_variant("A")), vec![0x61, b'A']);
    let long = "x".repeat(24);
    let mut expected = vec![0x78, 24];
    expected.extend_from_slice(long.as_bytes());
    assert_eq!(bytes_of(|s| s.serialize_str(&long)), expected);
}

#[test]
fn cid_link_is_tagged() {
    assert_eq!(bytes_of(|s| s.serialize_cid_link(&[0, 1])), vec![0xd8, 0x2a, 0x42, 0, 1]);
}

#[test]
fn variants() {
    let out = bytes_of(|s| {
        s.serialize_newtype_variant("V");
        s.serialize_u64(1);
    });
    assert_eq!(out, vec![0xa1, 0x61, b'V', 0x01]);
    let out = bytes_of(|s| {
        s.serialize_tuple_variant("T", 2).end();
    });
    assert_eq!(out, vec![0xa1, 0x61, b'T', 0x82]);
    let out = bytes_of(|s| {
        let c = s.serialize_struct_variant("S", 0);
        c.end(s);
    });
    assert_eq!(out, vec![0xa1, 0x61, b'S', 0xa0]);
}

#[test]
fn list_of_known_length() {
    let out = bytes_of(|s| {
        let c = s.serialize_seq(Some(2));
        s.serialize_u64(1);
        s.serialize_u64(2);
        c.end(s);
    });
    assert_eq!(out, vec![0x82, 0x01, 0x02]);
    let out = bytes_of(|s| {
        s.serialize_tuple(1).end();
        s.serialize_str("a");
    });
    assert_eq!(out, vec![0x81, 0x61, b'a']);
}

#[test]
fn list_of_unknown_length_is_counted() {
    let out = bytes_of(|s| {
        let mut c = s.serialize_seq(None);
        for v in [1u64, 2, 3] {
            c.note_element();
            c.element_writer(s).serialize_u64(v);
        }
        assert_eq!(c.count, 3);
        c.end(s);
    });
    assert_eq!(out, vec![0x83, 0x01, 0x02, 0x03]);
}

#[test]
fn struct_fields_sort_length_first() {
    // keys "bb", "a", "c": sorted by encoded bytes, so shorter keys first
    let out = bytes_of(|s| {
        let mut m = s.serialize_struct(3);
        for (k, v) in [("bb", 1u64), ("a", 2), ("c", 3)] {
            m.serialize_field_key(k);
            m.entry_buffer().serialize_u64(v);
            m.finish_entry();
        }
        m.end(s);
    });
    assert_eq!(out, vec![0xa3, 0x61, b'a', 0x02, 0x61, b'c', 0x03, 0x62, b'b', b'b', 0x01]);
}

#[test]
fn map_head_counts_entries() {
    let out = bytes_of(|s| {
        let mut m = s.serialize_map(None);
        for (k, v) in [("key2", "value2"), ("key1", "value1")] {
            m.entry_buffer().serialize_str(k);
            m.entry_buffer().serialize_str(v);
            m.finish_entry();
        }
        m.end_map(s);
    });
    let mut expected = vec![0xa2];
    for (k, v) in [("key1", "value1"), ("key2", "value2")] {
        expected.push(0x64);
        expected.extend_from_slice(k.as_bytes());
        expected.push(0x66);
        expected.extend_from_slice(v.as_bytes());
    }
    assert_eq!(out, expected);
}

#[test]
fn map_output_independent_of_insertion_order() {
    let write = |order: &[(&str, u64)]| {
        bytes_of(|s| {
            let mut m = s.serialize_map(None);
            for (k, v) in order {
                m.entry_buffer().serialize_str(k);
                m.entry_buffer().serialize_u64(*v);
                m.finish_entry();
            }
            m.end_map(s);
        })
    };
    let a = write(&[("zz", 1), ("y", 2), ("xxx", 3)]);
    let b = write(&[("xxx", 3), ("zz", 1), ("y", 2)]);
    assert_eq!(a, b);
}

#[test]
fn empty_map() {
    let out = bytes_of(|s| {
        let m = s.serialize_map(Some(0));
        m.end_map(s);
    });
    assert_eq!(out, vec![0xa0]);
}

#[test]
fn error_messages() {
    assert_eq!(
        EncodeError::NonFiniteFloat.message(),
        "Float must be a finite number, not Infinity or NaN"
    );
    assert_eq!(EncodeError::InvalidKeyType.message(), "invalid key type, expected string");
}

#[test]
fn value_serializer_scalars() {
    let mut vs = ValueSerializer;
    assert_eq!(vs.serialize_bool(true), Value::Bool(true));
    assert_eq!(vs.serialize_i64(-60), Value::Integer(-60));
    assert_eq!(vs.serialize_u64(3000), Value::Integer(3000));
    assert_eq!(vs.serialize_str("hi"), Value::Text("hi".to_string()));
    assert_eq!(vs.serialize_char('é'), Value::Text("é".to_string()));
    assert_eq!(vs.serialize_bytes(&[1, 2]), Value::Bytes(vec![1, 2]));
    assert_eq!(vs.serialize_none(), Value::Null);
    assert_eq!(vs.serialize_unit(), Value::Null);
    assert_eq!(vs.serialize_unit_variant("A"), Value::Text("A".to_string()));
    assert_eq!(vs.serialize_f64_bits(2.5f64.to_bits()), Ok(Value::Float(2.5f64.to_bits())));
    assert_eq!(vs.serialize_f64_bits(f64::NAN.to_bits()), Err(EncodeError::NonFiniteFloat));
    assert_eq!(vs.serialize_cid_link(&[0, 1]), Value::Bytes(vec![0xd8, 0x2a, 0x42, 0, 1]));
}

#[test]
fn value_serializer_collections() {
    let mut vs = ValueSerializer;
    let mut seq = vs.serialize_seq(None);
    seq.serialize_element(Value::Integer(1));
    seq.serialize_element(Value::Null);
    assert_eq!(seq.end(), Value::Array(vec![Value::Integer(1), Value::Null]));

    let mut map = vs.serialize_map(None);
    map.serialize_key("b".to_string());
    map.serialize_value(Value::Integer(1));
    map.serialize_key("a".to_string());
    map.serialize_value(Value::Integer(2));
    map.serialize_key("b".to_string());
    map.serialize_value(Value::Integer(3));
    match map.end() {
        Value::Mapping(m) => {
            let keys: Vec<&str> = m.entries().iter().map(|(k, _)| k.as_str()).collect();
            assert_eq!(keys, vec!["a", "b"]);
            assert_eq!(m.entries()[1].1, Value::Integer(3));
        }
        other => panic!("expected a map, got {:?}", other),
    }

    let mut st = vs.serialize_struct(2);
    st.serialize_field("z", Value::Bool(false));
    st.serialize_field("aa", Value::Bool(true));
    match st.end() {
        Value::Mapping(m) => {
            assert_eq!(m.len(), 2);
            assert_eq!(m.entries()[0].0, "aa");
            assert_eq!(m.entries()[1].0, "z");
        }
        other => panic!("expected a map, got {:?}", other),
    }

    match vs.serialize_newtype_variant("V", Value::Integer(7)) {
        Value::Mapping(m) => {
            assert_eq!(m.len(), 1);
            assert_eq!(m.entries()[0].0, "V");
            assert_eq!(m.entries()[0].1, Value::Integer(7));
        }
        other => panic!("expected a map, got {:?}", other),
    }

    let mut tv = vs.serialize_tuple_variant("T", 1);
    tv.serialize_field(Value::Bool(true));
    match tv.end() {
        Value::Mapping(m) => {
            assert_eq!(m.entries()[0].0, "T");
            assert_eq!(m.entries()[0].1, Value::Array(vec![Value::Bool(true)]));
        }
        other => panic!("expected a map, got {:?}", other),
    }

    let mut sv = vs.serialize_struct_variant("S", 1);
    sv.serialize_field("f", Value::Null);
    match sv.end() {
        Value::Mapping(m) => {
            assert_eq!(m.entries()[0].0, "S");
            match &m.entries()[0].1 {
                Value::Mapping(inner) => {
                    assert_eq!(inner.entries()[0].0, "f");
                    assert_eq!(inner.entries()[0].1, Value::Null);
                }
                other => panic!("expected a map, got {:?}", other),
            }
        }
        other => panic!("expected a map, got {:?}", other),
    }
}

#[test]
fn map_keys_in_canonical_order() {
    // {"aa": 1, "b": 2} in key order: "b" is shorter, so it comes first
    let out = bytes_of(|s| {
        let mut m = s.serialize_map(Some(2));
        for (k, v) in [("aa", 1u64), ("b", 2)] {
            m.entry_buffer().serialize_str(k);
            m.entry_buffer().serialize_u64(v);
            m.finish_entry();
        }
        m.end_map(s);
    });
    assert_eq!(out, vec![0xa2, 0x61, 0x62, 0x02, 0x62, 0x61, 0x61, 0x01]);
}

#[test]
fn unknown_and_known_length_lists_agree() {
    let known = bytes_of(|s| {
        let mut c = s.serialize_seq(Some(2));
        c.note_element();
        c.element_writer(s).serialize_str("one");
        c.note_element();
        c.element_writer(s).serialize_i64(-1);
        c.end(s);
    });
    let counted = bytes_of(|s| {
        let mut c = s.serialize_seq(None);
        c.note_element();
        c.element_writer(s).serialize_str("one");
        c.note_element();
        c.element_writer(s).serialize_i64(-1);
        c.end(s);
    });
    assert_eq!(known, counted);
}

#[test]
fn many_entries_sorted() {
    let keys = ["g", "ff", "e", "dddd", "c", "bb", "a", "ccc"];
    let out = bytes_of(|s| {
        let mut m = s.serialize_map(None);
        for k in keys {
            m.entry_buffer().serialize_str(k);
            m.entry_buffer().serialize_none();
            m.finish_entry();
        }
        m.end_map(s);
    });
    let mut expected = vec![0xa8];
    for k in ["a", "c", "e", "g", "bb", "ff", "ccc", "dddd"] {
        expected.push(0x60 + k.len() as u8);
        expected.extend_from_slice(k.as_bytes());
        expected.push(0xf6);
    }
    assert_eq!(out, expected);
}
