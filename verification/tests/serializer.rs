use colpack::serializer::{
    DecodeError, Deserializer, IntoFormat, PropertyType, PropertyValue, Serializer,
};

fn nested() -> Vec<PropertyValue> {
    vec![
        PropertyValue::String("x".to_owned()),
        PropertyValue::Integer(1),
        PropertyValue::Array(vec![PropertyValue::Bool(true), PropertyValue::Bool(false)]),
    ]
}

#[test]
fn empty_tree_is_the_version_and_an_empty_header() {
    let serializer = Serializer::new();
    let mut buffer = vec![9, 9, 9, 9, 9, 9];
    serializer.finish(&mut buffer, 8);
    // The version, four lengths of zero in four bits each, and the flag, which is
    // set: no string is not printable.
    assert_eq!(buffer, vec![8, 0b0000_0000, 0b1000_0000, 0b0000_0000]);
    let mut deserializer = Deserializer::new();
    assert_eq!(deserializer.read_bytes(&buffer, 8), Ok(()));
    assert_eq!(deserializer.take_int(), None);
    assert_eq!(deserializer.take_bool(), None);
    assert_eq!(deserializer.take_string(), None);
    assert_eq!(deserializer.take_property_type(), None);
    assert_eq!(deserializer.take_array(), None);
}

#[test]
fn nested_array_fills_the_columns_in_order() {
    let array = nested();
    let mut serializer = Serializer::new();
    serializer.write_array(&array);
    let mut buffer = Vec::new();
    serializer.finish(&mut buffer, 1);

    let mut deserializer = Deserializer::new();
    assert_eq!(deserializer.read_bytes(&buffer, 1), Ok(()));
    // I = [3, 1, 2], B = [true, false], S = ["x"], T = [String, Integer, Array, Bool, Bool].
    assert_eq!(deserializer.take_int(), Some(3));
    assert_eq!(deserializer.take_int(), Some(1));
    assert_eq!(deserializer.take_int(), Some(2));
    assert_eq!(deserializer.take_int(), None);
    assert_eq!(deserializer.take_bool(), Some(true));
    assert_eq!(deserializer.take_bool(), Some(false));
    assert_eq!(deserializer.take_bool(), None);
    assert_eq!(deserializer.take_string(), Some("x".to_owned()));
    assert_eq!(deserializer.take_string(), None);
    assert_eq!(deserializer.take_property_type(), Some(PropertyType::String));
    assert_eq!(deserializer.take_property_type(), Some(PropertyType::Integer));
    assert_eq!(deserializer.take_property_type(), Some(PropertyType::Array));
    assert_eq!(deserializer.take_property_type(), Some(PropertyType::Bool));
    assert_eq!(deserializer.take_property_type(), Some(PropertyType::Bool));
    assert_eq!(deserializer.take_property_type(), None);
}

#[test]
fn nested_array_is_reconstructed() {
    let array = nested();
    let mut serializer = Serializer::new();
    serializer.write_array(&array);
    let mut buffer = Vec::new();
    serializer.finish(&mut buffer, 1);
    let mut deserializer = Deserializer::new();
    assert_eq!(deserializer.read_bytes(&buffer, 1), Ok(()));
    assert_eq!(deserializer.take_array(), Some(array));
    assert_eq!(deserializer.take_array(), None);
}

#[test]
fn nested_array_bytes() {
    let array = nested();
    let mut serializer = Serializer::new();
    serializer.write_array(&array);
    let mut buffer = Vec::new();
    serializer.finish(&mut buffer, 1);
    // version | 3 ints | 2 bools | ascii | 1 string | 5 tags: 25 bits; the integers
    // 3 1 2: 12 bits; the booleans: 2 bits; "x" in the ultrapack form: selector,
    // flags, length and one digit of six bits, 15 bits; five tags: 10 bits.
    assert_eq!(buffer.len(), 8);
    assert_eq!(buffer[7], 0b1011_0101);
    assert_eq!(buffer[0], 1);
    assert_eq!(buffer[1], 0b0011_0010);
    assert_eq!(buffer[2], 0b1_0001_010);
}

#[test]
fn truncated_payload_fails_and_leaves_nothing() {
    let array = nested();
    let mut serializer = Serializer::new();
    serializer.write_array(&array);
    let mut buffer = Vec::new();
    serializer.finish(&mut buffer, 1);
    buffer.pop();
    let mut deserializer = Deserializer::new();
    assert_eq!(
        deserializer.read_bytes(&buffer, 1),
        Err(DecodeError::Truncated)
    );
    assert_eq!(deserializer.take_int(), None);
    assert_eq!(deserializer.take_array(), None);
    assert_eq!(deserializer.take_property_type(), None);
    for len in 0..buffer.len() {
        assert_eq!(
            deserializer.read_bytes(&buffer[..len], 1),
            Err(DecodeError::Truncated)
        );
    }
}

#[test]
fn version_mismatch_is_reported() {
    let mut serializer = Serializer::new();
    serializer.write_int(5);
    let mut buffer = Vec::new();
    serializer.finish(&mut buffer, 3);
    let mut deserializer = Deserializer::new();
    assert_eq!(
        deserializer.read_bytes(&buffer, 4),
        Err(DecodeError::VersionMismatch)
    );
    assert_eq!(deserializer.take_int(), None);
    assert_eq!(deserializer.read_bytes(&buffer, 3), Ok(()));
    assert_eq!(deserializer.take_int(), Some(5));
    assert_eq!(deserializer.read_bytes(&[], 3), Err(DecodeError::Truncated));
}

#[test]
fn read_bytes_refills_the_reader() {
    let mut first = Serializer::new();
    first.write_int(1);
    first.write_int(2);
    let mut buffer = Vec::new();
    first.finish(&mut buffer, 0);
    let mut deserializer = Deserializer::new();
    assert_eq!(deserializer.read_bytes(&buffer, 0), Ok(()));
    assert_eq!(deserializer.take_int(), Some(1));
    let mut second = Serializer::new();
    second.write_bool(true);
    second.finish(&mut buffer, 0);
    assert_eq!(deserializer.read_bytes(&buffer, 0), Ok(()));
    assert_eq!(deserializer.take_int(), None);
    assert_eq!(deserializer.take_bool(), Some(true));
}

#[test]
fn struct_fields_carry_no_tags() {
    let name = "Nice".to_owned();
    let mut serializer = Serializer::new();
    serializer.write_int(4);
    serializer.write_string(&name);
    serializer.write_bool(true);
    let mut buffer = Vec::new();
    serializer.finish(&mut buffer, 8);
    let mut deserializer = Deserializer::new();
    assert_eq!(deserializer.read_bytes(&buffer, 8), Ok(()));
    assert_eq!(deserializer.take_property_type(), None);
    assert_eq!(deserializer.take_int(), Some(4));
    assert_eq!(deserializer.take_string(), Some(name.clone()));
    assert_eq!(deserializer.take_bool(), Some(true));
}

#[test]
fn write_value_writes_the_tag_first() {
    let value = PropertyValue::Array(vec![PropertyValue::Integer(-7)]);
    let mut serializer = Serializer::new();
    serializer.write_value(&value);
    serializer.write_property_type(PropertyType::Bool);
    let mut buffer = Vec::new();
    serializer.finish(&mut buffer, 0);
    let mut deserializer = Deserializer::new();
    assert_eq!(deserializer.read_bytes(&buffer, 0), Ok(()));
    assert_eq!(deserializer.take_property_type(), Some(PropertyType::Array));
    assert_eq!(
        deserializer.take_array(),
        Some(vec![PropertyValue::Integer(-7)])
    );
    assert_eq!(deserializer.take_property_type(), Some(PropertyType::Bool));
}

#[test]
fn deep_tree_round_trips() {
    let mut tree = PropertyValue::Array(vec![]);
    for depth in 0..50 {
        tree = PropertyValue::Array(vec![
            PropertyValue::Integer(depth),
            tree,
            PropertyValue::String(format!("level {}", depth)),
            PropertyValue::Bool(depth % 2 == 0),
        ]);
    }
    let array = vec![tree, PropertyValue::Array(vec![])];
    let mut serializer = Serializer::new();
    serializer.write_array(&array);
    let mut buffer = Vec::new();
    serializer.finish(&mut buffer, 200);
    let mut deserializer = Deserializer::new();
    assert_eq!(deserializer.read_bytes(&buffer, 200), Ok(()));
    assert_eq!(deserializer.take_array(), Some(array));
}

#[test]
fn unicode_strings_round_trip() {
    let texts = ["plain", "caf\u{e9}", "\u{1F600} tab\there", "", "日本語"];
    let mut serializer = Serializer::new();
    for text in texts.iter() {
        serializer.write_string(text);
    }
    let mut buffer = Vec::new();
    serializer.finish(&mut buffer, 1);
    // The flag behind the two lengths is clear.
    assert_eq!(buffer[2] & 0b1000_0000, 0);
    let mut deserializer = Deserializer::new();
    assert_eq!(deserializer.read_bytes(&buffer, 1), Ok(()));
    for text in texts.iter() {
        assert_eq!(deserializer.take_string(), Some(text.to_string()));
    }
    assert_eq!(deserializer.take_string(), None);
}

#[test]
fn take_array_fails_where_a_column_runs_out() {
    let mut serializer = Serializer::new();
    // A length of two with a single element behind it.
    serializer.write_int(2);
    serializer.write_property_type(PropertyType::Bool);
    serializer.write_bool(true);
    let mut buffer = Vec::new();
    serializer.finish(&mut buffer, 0);
    let mut deserializer = Deserializer::new();
    assert_eq!(deserializer.read_bytes(&buffer, 0), Ok(()));
    assert_eq!(deserializer.take_array(), None);

    // A tag without its value.
    let mut serializer = Serializer::new();
    serializer.write_int(1);
    serializer.write_property_type(PropertyType::String);
    serializer.finish(&mut buffer, 0);
    assert_eq!(deserializer.read_bytes(&buffer, 0), Ok(()));
    assert_eq!(deserializer.take_array(), None);

    // A negative length asks for more elements than any payload holds.
    let mut serializer = Serializer::new();
    serializer.write_int(-1);
    serializer.finish(&mut buffer, 0);
    assert_eq!(deserializer.read_bytes(&buffer, 0), Ok(()));
    assert_eq!(deserializer.take_array(), None);
}

#[test]
fn clear_and_reuse_empty_the_columns() {
    let text = "kept".to_owned();
    let mut serializer = Serializer::new();
    serializer.write_int(1);
    serializer.write_string(&text);
    serializer.write_bool(false);
    serializer.write_property_type(PropertyType::Array);
    assert_eq!(serializer.native_bytes(), 8 + 4 + 1 + 1);
    serializer.clear();
    assert_eq!(serializer.native_bytes(), 0);
    let mut empty = Vec::new();
    serializer.finish(&mut empty, 8);
    assert_eq!(empty, vec![8, 0, 0x80, 0]);

    serializer.write_int(1);
    let reused: Serializer = serializer.reuse();
    let mut buffer = Vec::new();
    reused.finish(&mut buffer, 8);
    assert_eq!(buffer, empty);
}

#[test]
fn tags_have_two_bits() {
    assert_eq!(PropertyType::String.to_bits(), (0, 2));
    assert_eq!(PropertyType::Bool.to_bits(), (1, 2));
    assert_eq!(PropertyType::Integer.to_bits(), (2, 2));
    assert_eq!(PropertyType::Array.to_bits(), (3, 2));
    assert_eq!(PropertyType::from_bits(0), Some(PropertyType::String));
    assert_eq!(PropertyType::from_bits(1), Some(PropertyType::Bool));
    assert_eq!(PropertyType::from_bits(2), Some(PropertyType::Integer));
    assert_eq!(PropertyType::from_bits(3), Some(PropertyType::Array));
    assert_eq!(PropertyType::from_bits(4), None);
    assert_eq!(PropertyType::from_bits(255), None);
}

struct Point {
    x: i64,
    label: String,
    visible: bool,
    extra: Vec<PropertyValue>,
}

impl IntoFormat for Point {
    fn version() -> u8 {
        2
    }

    fn serialize<'a>(&'a self, serializer: &mut Serializer<'a>) {
        serializer.write_int(self.x);
        serializer.write_string(self.label.as_str());
        serializer.write_bool(self.visible);
        serializer.write_array(self.extra.as_slice());
    }

    fn deserialize(data: &[u8], deserializer: &mut Deserializer) -> Option<Self> {
        deserializer.read_bytes(data, Self::version()).ok()?;
        Some(Point {
            x: deserializer.take_int()?,
            label: deserializer.take_string()?,
            visible: deserializer.take_bool()?,
            extra: deserializer.take_array()?,
        })
    }
}

#[test]
fn a_schema_reads_its_fields_in_the_order_written() {
    let point = Point {
        x: 500,
        label: "testing testing".to_owned(),
        visible: true,
        extra: nested(),
    };
    let mut serializer = Serializer::new();
    point.serialize(&mut serializer);
    let mut buffer = Vec::new();
    serializer.finish(&mut buffer, Point::version());
    let mut deserializer = Deserializer::new();
    let read = Point::deserialize(&buffer, &mut deserializer);
    assert!(read.is_some());
    let read = read.unwrap();
    assert_eq!(read.x, 500);
    assert_eq!(read.label, "testing testing");
    assert!(read.visible);
    assert_eq!(read.extra, nested());
    assert!(Point::deserialize(&buffer[..buffer.len() - 1], &mut deserializer).is_none());
}
