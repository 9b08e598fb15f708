//! The columnar serializer: a tree of typed values is taken apart into four columns,
//! one for each kind of value and one for the tags of array elements, and the columns
//! are written one behind the other after a header that holds their lengths.

use crate::bit_packer::{BitPacker, BitUnpacker};
use crate::bits::{
    bits_value, bytes_bits, holds_at, lemma_holds_at_concat, lemma_packed_holds, lemma_read_back,
    pack_bits, value_bits,
};
use crate::huffman::{code_lengths, common_counts, HuffmanTable};
use crate::text::{
    covers_printable, lemma_texts_roundtrip, owned_texts, strings_printable, texts_bits,
    texts_fit, texts_of, texts_parse, texts_printable,
};
use crate::varint::{
    code_int, int_bits, int_code, int_parse, int_to_pattern, lemma_int_roundtrip,
    lemma_pattern_roundtrip, lemma_varint_roundtrip, pattern_to_int, varint_bits, varint_parse,
};
use std::collections::VecDeque;
use vstd::prelude::*;
use vstd::utf8::encode_utf8;

verus! {

/// The kind of a value, as the tag of an array element says it.
#[derive(Copy, Clone, Debug, PartialEq, Eq, Structural)]
pub enum PropertyType {
    String,
    Bool,
    Integer,
    Array,
}

/// The two-bit number of a tag.
pub open spec fn tag_code(tag: PropertyType) -> nat {
    match tag {
        PropertyType::String => 0,
        PropertyType::Bool => 1,
        PropertyType::Integer => 2,
        PropertyType::Array => 3,
    }
}

/// The tag of a two-bit number.
pub open spec fn code_tag(code: nat) -> PropertyType {
    if code == 0 {
        PropertyType::String
    } else if code == 1 {
        PropertyType::Bool
    } else if code == 2 {
        PropertyType::Integer
    } else {
        PropertyType::Array
    }
}

impl PropertyType {
    /// The number of the tag and the count of bits that it is written with.
    pub fn to_bits(&self) -> (bits: (u8, u8))
        ensures
            bits.0 == tag_code(*self),
            bits.1 == 2,
    {
        match self {
            PropertyType::String => (0, 2),
            PropertyType::Bool => (1, 2),
            PropertyType::Integer => (2, 2),
            PropertyType::Array => (3, 2),
        }
    }

    /// The tag of a number; none for a number above 3.
    pub fn from_bits(bits: u8) -> (tag: Option<Self>)
        ensures
            bits <= 3 ==> tag == Some(code_tag(bits as nat)),
            bits > 3 ==> tag.is_none(),
    {
        match bits {
            0 => Some(PropertyType::String),
            1 => Some(PropertyType::Bool),
            2 => Some(PropertyType::Integer),
            3 => Some(PropertyType::Array),
            _ => None,
        }
    }
}

/// A typed value: a string, a truth value, an integer, or a list of typed values.
#[derive(Debug, PartialEq, Eq)]
pub enum PropertyValue {
    String(String),
    Bool(bool),
    Integer(i64),
    Array(Vec<PropertyValue>),
}

/// What a typed value holds.
pub enum Tree {
    String(Seq<char>),
    Bool(bool),
    Integer(i64),
    Array(Seq<Tree>),
}

/// What a typed value holds: the characters of a string, the truth value, the
/// integer, or what the elements of an array hold.
pub open spec fn tree_of(value: PropertyValue) -> Tree
    decreases value,
{
    match value {
        PropertyValue::String(s) => Tree::String(s@),
        PropertyValue::Bool(b) => Tree::Bool(b),
        PropertyValue::Integer(i) => Tree::Integer(i),
        PropertyValue::Array(v) => Tree::Array(
            Seq::new(
                v.len() as nat,
                |i: int|
                    if 0 <= i < v.len() {
                        tree_of(v[i])
                    } else {
                        Tree::Bool(false)
                    },
            ),
        ),
    }
}

impl View for PropertyValue {
    type V = Tree;

    /// What the value holds.
    open spec fn view(&self) -> Tree {
        tree_of(*self)
    }
}

impl Clone for PropertyValue {
    /// A copy that holds what this value holds.
    fn clone(&self) -> (copy: Self)
        ensures
            copy@ == self@,
        decreases self, 0nat,
    {
        match self {
            PropertyValue::String(s) => PropertyValue::String(s.clone()),
            PropertyValue::Bool(b) => PropertyValue::Bool(*b),
            PropertyValue::Integer(i) => PropertyValue::Integer(*i),
            PropertyValue::Array(values) => {
                let copies = clone_values(values.as_slice());
                proof {
                    lemma_array_view(copies);
                    lemma_array_view(*values);
                }
                PropertyValue::Array(copies)
            },
        }
    }
}

/// Copies of a run of typed values.
fn clone_values(values: &[PropertyValue]) -> (copies: Vec<PropertyValue>)
    ensures
        trees_of(copies@) == trees_of(values@),
    decreases values@, 1nat,
{
    let mut copies: Vec<PropertyValue> = Vec::new();
    let mut i: usize = 0;
    while i < values.len()
        invariant
            i <= values.len(),
            copies@.len() == i,
            forall|j: int| 0 <= j < i ==> #[trigger] copies@[j]@ == values@[j]@,
        decreases values.len() - i,
    {
        copies.push(values[i].clone());
        i += 1;
    }
    proof {
        assert(trees_of(copies@) =~= trees_of(values@));
    }
    copies
}

/// What each of a run of typed values holds.
pub open spec fn trees_of(values: Seq<PropertyValue>) -> Seq<Tree> {
    Seq::new(values.len(), |i: int| values[i]@)
}

/// An array holds what its elements hold.
pub proof fn lemma_array_view(values: Vec<PropertyValue>)
    ensures
        PropertyValue::Array(values)@ == Tree::Array(trees_of(values@)),
{
    assert(PropertyValue::Array(values)@->Array_0 =~= trees_of(values@));
}

/// The four columns of a payload.
pub struct Columns {
    pub integers: Seq<i64>,
    pub booleans: Seq<bool>,
    pub strings: Seq<Seq<char>>,
    pub tags: Seq<PropertyType>,
}

/// Four empty columns.
pub open spec fn no_columns() -> Columns {
    Columns {
        integers: Seq::empty(),
        booleans: Seq::empty(),
        strings: Seq::empty(),
        tags: Seq::empty(),
    }
}

/// Each column of `a` with the same column of `b` behind it.
pub open spec fn columns_append(a: Columns, b: Columns) -> Columns {
    Columns {
        integers: a.integers + b.integers,
        booleans: a.booleans + b.booleans,
        strings: a.strings + b.strings,
        tags: a.tags + b.tags,
    }
}

/// The columns of a single integer.
pub open spec fn integer_column(value: i64) -> Columns {
    Columns { integers: seq![value], ..no_columns() }
}

/// The columns of a single truth value.
pub open spec fn boolean_column(value: bool) -> Columns {
    Columns { booleans: seq![value], ..no_columns() }
}

/// The columns of a single string.
pub open spec fn string_column(value: Seq<char>) -> Columns {
    Columns { strings: seq![value], ..no_columns() }
}

/// The columns of a single tag.
pub open spec fn tag_column(tag: PropertyType) -> Columns {
    Columns { tags: seq![tag], ..no_columns() }
}

/// The columns of a value as an array element: its tag, then what it holds.
pub open spec fn value_columns(value: Tree) -> Columns
    decreases value, 0nat,
{
    match value {
        Tree::String(s) => columns_append(tag_column(PropertyType::String), string_column(s)),
        Tree::Bool(b) => columns_append(tag_column(PropertyType::Bool), boolean_column(b)),
        Tree::Integer(i) => columns_append(tag_column(PropertyType::Integer), integer_column(i)),
        Tree::Array(values) => columns_append(
            tag_column(PropertyType::Array),
            columns_append(
                integer_column(code_int(values.len())),
                values_columns(values),
            ),
        ),
    }
}

/// The columns of a run of values, each as an array element.
pub open spec fn values_columns(values: Seq<Tree>) -> Columns
    decreases values, 1nat,
{
    if values.len() == 0 {
        no_columns()
    } else {
        columns_append(value_columns(values[0]), values_columns(values.skip(1)))
    }
}

/// The columns of an array: its length as an integer, then its elements.
pub open spec fn array_columns(values: Seq<Tree>) -> Columns {
    columns_append(integer_column(code_int(values.len())), values_columns(values))
}

/// The columns of a run of values with one more value behind it.
pub proof fn lemma_values_columns_push(values: Seq<Tree>, value: Tree)
    ensures
        values_columns(values.push(value)) == columns_append(
            values_columns(values),
            value_columns(value),
        ),
    decreases values.len(),
{
    let grown = values.push(value);
    let last = value_columns(value);
    if values.len() == 0 {
        assert(grown.skip(1) =~= Seq::<Tree>::empty());
        assert(values_columns(Seq::<Tree>::empty()) == no_columns());
        assert(grown[0] == value);
        lemma_columns_append_empty(last);
    } else {
        lemma_values_columns_push(values.skip(1), value);
        assert(grown.skip(1) =~= values.skip(1).push(value));
        assert(grown[0] == values[0]);
        lemma_columns_append_assoc(
            value_columns(values[0]),
            values_columns(values.skip(1)),
            last,
        );
    }
}

/// Appending empty columns on either side changes nothing.
pub proof fn lemma_columns_append_empty(a: Columns)
    ensures
        columns_append(a, no_columns()) == a,
        columns_append(no_columns(), a) == a,
{
    let right = columns_append(a, no_columns());
    let left = columns_append(no_columns(), a);
    assert(right.integers =~= a.integers && right.booleans =~= a.booleans && right.strings
        =~= a.strings && right.tags =~= a.tags);
    assert(left.integers =~= a.integers && left.booleans =~= a.booleans && left.strings
        =~= a.strings && left.tags =~= a.tags);
}

/// Appending columns is associative.
pub proof fn lemma_columns_append_assoc(a: Columns, b: Columns, c: Columns)
    ensures
        columns_append(columns_append(a, b), c) == columns_append(a, columns_append(b, c)),
{
    let left = columns_append(columns_append(a, b), c);
    let right = columns_append(a, columns_append(b, c));
    assert(left.integers =~= right.integers && left.booleans =~= right.booleans && left.strings
        =~= right.strings && left.tags =~= right.tags);
}

/// The writer of a payload: the four columns, filled in the order in which the
/// values are written.
#[derive(Debug)]
pub struct Serializer<'a> {
    integers: Vec<i64>,
    strings: Vec<&'a str>,
    booleans: Vec<bool>,
    property_types: Vec<PropertyType>,
}

impl<'a> View for Serializer<'a> {
    type V = Columns;

    /// The four columns as they are filled so far.
    closed spec fn view(&self) -> Columns {
        Columns {
            integers: self.integers@,
            booleans: self.booleans@,
            strings: texts_of(self.strings@),
            tags: self.property_types@,
        }
    }
}

impl<'a> Default for Serializer<'a> {
    /// A writer with four empty columns.
    fn default() -> (serializer: Self)
        ensures
            serializer@ == no_columns(),
    {
        Serializer::new()
    }
}

/// Drops what a vector holds and hands out an empty vector of another type.
fn reuse_vec<T, U>(v: Vec<T>) -> (emptied: Vec<U>)
    ensures
        emptied@.len() == 0,
{
    let mut v = v;
    v.clear();
    Vec::new()
}

impl<'a> Serializer<'a> {
    /// A writer with four empty columns.
    pub fn new() -> (serializer: Self)
        ensures
            serializer@ == no_columns(),
    {
        let serializer = Serializer {
            integers: Vec::new(),
            strings: Vec::new(),
            booleans: Vec::new(),
            property_types: Vec::new(),
        };
        proof {
            assert(serializer@.strings =~= Seq::<Seq<char>>::empty());
        }
        serializer
    }

    /// Empties the four columns; their storage is kept.
    pub fn clear(&mut self)
        ensures
            final(self)@ == no_columns(),
    {
        self.integers.clear();
        self.strings.clear();
        self.booleans.clear();
        self.property_types.clear();
        proof {
            assert(self@.strings =~= Seq::<Seq<char>>::empty());
        }
    }

    /// An empty writer for strings of another lifetime, with the storage of this one.
    pub fn reuse<'b>(self) -> (serializer: Serializer<'b>)
        ensures
            serializer@ == no_columns(),
    {
        let mut integers = self.integers;
        let mut booleans = self.booleans;
        let mut property_types = self.property_types;
        integers.clear();
        booleans.clear();
        property_types.clear();
        let serializer = Serializer {
            integers,
            strings: reuse_vec(self.strings),
            booleans,
            property_types,
        };
        proof {
            assert(serializer@.strings =~= Seq::<Seq<char>>::empty());
        }
        serializer
    }

    /// Appends an integer to its column.
    pub fn write_int(&mut self, value: i64)
        ensures
            final(self)@ == columns_append(old(self)@, integer_column(value)),
    {
        self.integers.push(value);
        proof {
            let grown = columns_append(old(self)@, integer_column(value));
            assert(self@.integers =~= grown.integers && self@.booleans =~= grown.booleans
                && self@.strings =~= grown.strings && self@.tags =~= grown.tags);
        }
    }

    /// Appends a string to its column.
    pub fn write_string<'b: 'a>(&mut self, value: &'b str)
        ensures
            final(self)@ == columns_append(old(self)@, string_column(value@)),
    {
        self.strings.push(value);
        proof {
            let grown = columns_append(old(self)@, string_column(value@));
            assert(self@.integers =~= grown.integers && self@.booleans =~= grown.booleans
                && self@.strings =~= grown.strings && self@.tags =~= grown.tags);
        }
    }

    /// Appends a truth value to its column.
    pub fn write_bool(&mut self, value: bool)
        ensures
            final(self)@ == columns_append(old(self)@, boolean_column(value)),
    {
        self.booleans.push(value);
        proof {
            let grown = columns_append(old(self)@, boolean_column(value));
            assert(self@.integers =~= grown.integers && self@.booleans =~= grown.booleans
                && self@.strings =~= grown.strings && self@.tags =~= grown.tags);
        }
    }

    /// Appends a tag to its column.
    pub fn write_property_type(&mut self, tag: PropertyType)
        ensures
            final(self)@ == columns_append(old(self)@, tag_column(tag)),
    {
        self.property_types.push(tag);
        proof {
            let grown = columns_append(old(self)@, tag_column(tag));
            assert(self@.integers =~= grown.integers && self@.booleans =~= grown.booleans
                && self@.strings =~= grown.strings && self@.tags =~= grown.tags);
        }
    }

    /// Appends a value as an array element: its tag, then what it holds.
    pub fn write_value<'r: 'a>(&mut self, value: &'r PropertyValue)
        ensures
            final(self)@ == columns_append(old(self)@, value_columns(value@)),
        decreases value, 0nat,
    {
        match value {
            PropertyValue::Bool(b) => {
                self.write_property_type(PropertyType::Bool);
                self.write_bool(*b);
                proof {
                    lemma_columns_append_assoc(
                        old(self)@,
                        tag_column(PropertyType::Bool),
                        boolean_column(*b),
                    );
                }
            },
            PropertyValue::String(string) => {
                self.write_property_type(PropertyType::String);
                self.write_string(string.as_str());
                proof {
                    lemma_columns_append_assoc(
                        old(self)@,
                        tag_column(PropertyType::String),
                        string_column(string@),
                    );
                }
            },
            PropertyValue::Integer(i) => {
                self.write_property_type(PropertyType::Integer);
                self.write_int(*i);
                proof {
                    lemma_columns_append_assoc(
                        old(self)@,
                        tag_column(PropertyType::Integer),
                        integer_column(*i),
                    );
                }
            },
            PropertyValue::Array(values) => {
                self.write_property_type(PropertyType::Array);
                self.write_array(values.as_slice());
                proof {
                    lemma_array_view(*values);
                    lemma_columns_append_assoc(
                        old(self)@,
                        tag_column(PropertyType::Array),
                        array_columns(trees_of(values@)),
                    );
                }
            },
        }
    }

    /// Appends an array: its length as an integer, then each element with its tag.
    pub fn write_array<'arr: 'a>(&mut self, array: &'arr [PropertyValue])
        ensures
            final(self)@ == columns_append(old(self)@, array_columns(trees_of(array@))),
        decreases array@, 1nat,
    {
        let ghost trees = trees_of(array@);
        self.write_int(pattern_to_int(array.len() as u64));
        let ghost base = self@;
        let mut i: usize = 0;
        proof {
            lemma_columns_append_empty(base);
            assert(trees.take(0) =~= Seq::<Tree>::empty());
        }
        while i < array.len()
            invariant
                i <= array.len(),
                trees == trees_of(array@),
                self@ == columns_append(base, values_columns(trees.take(i as int))),
            decreases array.len() - i,
        {
            proof {
                lemma_values_columns_push(trees.take(i as int), trees[i as int]);
                assert(trees.take(i + 1) =~= trees.take(i as int).push(trees[i as int]));
                lemma_columns_append_assoc(
                    base,
                    values_columns(trees.take(i as int)),
                    value_columns(trees[i as int]),
                );
            }
            self.write_value(&array[i]);
            i += 1;
        }
        proof {
            assert(trees.take(array.len() as int) =~= trees);
            lemma_columns_append_assoc(
                old(self)@,
                integer_column(code_int(trees.len())),
                values_columns(trees),
            );
        }
    }

    /// Writes the payload into `buffer`, whose old contents are dropped: the version,
    /// the header with the lengths of the columns, then the four columns.
    pub fn finish(&self, buffer: &mut Vec<u8>, version: u8)
        ensures
            final(buffer)@ == pack_bits(payload_bits(self@, version)),
            columns_fit(self@),
    {
        let mut taken: Vec<u8> = Vec::new();
        core::mem::swap(buffer, &mut taken);
        let mut packer = BitPacker::new(taken);
        let table = HuffmanTable::common_table();
        let all_ascii = strings_printable(self.strings.as_slice());
        let ghost columns = self@;
        let ghost lens = common_lengths();
        packer.write_byte(version);
        packer.write_varint(self.integers.len() as u64);
        packer.write_varint(self.booleans.len() as u64);
        packer.write_bit(all_ascii);
        packer.write_varint(self.strings.len() as u64);
        packer.write_varint(self.property_types.len() as u64);
        let ghost header = packer@;
        proof {
            assert(header =~= Seq::<bool>::empty() + value_bits(version as nat, 8) + varint_bits(
                columns.integers.len(),
            ) + varint_bits(columns.booleans.len()) + seq![all_ascii] + varint_bits(
                columns.strings.len(),
            ) + varint_bits(columns.tags.len()));
            assert(header =~= header_bits(columns, version));
            assert(header + ints_bits(columns.integers.take(0)) =~= header);
        }
        let mut i: usize = 0;
        while i < self.integers.len()
            invariant
                i <= self.integers.len(),
                packer.wf(),
                columns == self@,
                packer@ == header + ints_bits(columns.integers.take(i as int)),
            decreases self.integers.len() - i,
        {
            proof {
                let seen = ints_bits(columns.integers.take(i as int));
                assert(columns.integers.take(i + 1).drop_last() =~= columns.integers.take(
                    i as int,
                ));
                assert(header + (seen + int_bits(columns.integers[i as int])) =~= (header + seen)
                    + int_bits(columns.integers[i as int]));
            }
            packer.write_int(self.integers[i]);
            i += 1;
        }
        let ghost after_integers = packer@;
        proof {
            assert(columns.integers.take(self.integers.len() as int) =~= columns.integers);
            assert(after_integers + columns.booleans.take(0) =~= after_integers);
        }
        let mut i: usize = 0;
        while i < self.booleans.len()
            invariant
                i <= self.booleans.len(),
                packer.wf(),
                columns == self@,
                packer@ == after_integers + columns.booleans.take(i as int),
            decreases self.booleans.len() - i,
        {
            proof {
                assert((after_integers + columns.booleans.take(i as int)).push(
                    columns.booleans[i as int],
                ) =~= after_integers + columns.booleans.take(i + 1));
            }
            packer.write_bit(self.booleans[i]);
            i += 1;
        }
        proof {
            assert(columns.booleans.take(self.booleans.len() as int) =~= columns.booleans);
        }
        packer.write_strings(self.strings.as_slice(), all_ascii, &table);
        let ghost after_strings = packer@;
        proof {
            assert(after_strings + tags_bits(columns.tags.take(0)) =~= after_strings);
        }
        let mut i: usize = 0;
        while i < self.property_types.len()
            invariant
                i <= self.property_types.len(),
                packer.wf(),
                columns == self@,
                packer@ == after_strings + tags_bits(columns.tags.take(i as int)),
            decreases self.property_types.len() - i,
        {
            proof {
                let seen = tags_bits(columns.tags.take(i as int));
                let next = value_bits(tag_code(columns.tags[i as int]), 2);
                assert(columns.tags.take(i + 1).drop_last() =~= columns.tags.take(i as int));
                assert(after_strings + (seen + next) =~= (after_strings + seen) + next);
            }
            packer.write_property_type(self.property_types[i]);
            i += 1;
        }
        proof {
            assert(columns.tags.take(self.property_types.len() as int) =~= columns.tags);
        }
        *buffer = packer.finish();
    }

    /// The bytes that the values take in memory: one for each truth value and tag,
    /// eight for each integer, and the UTF-8 bytes of each string; the greatest
    /// number that fits where the sum does not.
    pub fn native_bytes(&self) -> (size: usize)
        ensures
            size == if native_size(self@) <= usize::MAX {
                native_size(self@)
            } else {
                usize::MAX as nat
            },
    {
        let ghost texts = texts_of(self.strings@);
        let mut text_bytes: u128 = 0;
        let mut full = false;
        let mut i: usize = 0;
        while i < self.strings.len()
            invariant
                i <= self.strings.len(),
                texts == texts_of(self.strings@),
                !full ==> text_bytes == texts_size(texts.take(i as int)),
                !full ==> text_bytes <= 0x1_0000_0000_0000_0000,
                full ==> texts_size(texts.take(i as int)) > usize::MAX,
            decreases self.strings.len() - i,
        {
            proof {
                assert(texts.take(i + 1).drop_last() =~= texts.take(i as int));
                assert(texts[i as int] == self.strings@[i as int]@);
            }
            if !full {
                text_bytes = text_bytes + self.strings[i].as_bytes().len() as u128;
                if text_bytes > usize::MAX as u128 {
                    full = true;
                }
            }
            i += 1;
        }
        proof {
            assert(texts.take(self.strings.len() as int) =~= texts);
        }
        if full {
            return usize::MAX;
        }
        let total = self.booleans.len() as u128 + 8 * (self.integers.len() as u128) + text_bytes
            + self.property_types.len() as u128;
        if total > usize::MAX as u128 {
            usize::MAX
        } else {
            total as usize
        }
    }
}

/// The UTF-8 bytes of a run of strings, counted.
pub open spec fn texts_size(texts: Seq<Seq<char>>) -> nat
    decreases texts.len(),
{
    if texts.len() == 0 {
        0
    } else {
        texts_size(texts.drop_last()) + encode_utf8(texts.last()).len()
    }
}

/// The bytes that the values of four columns take in memory.
pub open spec fn native_size(columns: Columns) -> nat {
    columns.booleans.len() + 8 * columns.integers.len() + texts_size(columns.strings)
        + columns.tags.len()
}

/// The code lengths of the table for configuration text.
pub open spec fn common_lengths() -> Seq<u8> {
    code_lengths(common_counts())
}

/// A run of integers on the wire, one behind the other.
pub open spec fn ints_bits(values: Seq<i64>) -> Seq<bool>
    decreases values.len(),
{
    if values.len() == 0 {
        Seq::<bool>::empty()
    } else {
        ints_bits(values.drop_last()) + int_bits(values.last())
    }
}

/// A run of tags on the wire, two bits each.
pub open spec fn tags_bits(tags: Seq<PropertyType>) -> Seq<bool>
    decreases tags.len(),
{
    if tags.len() == 0 {
        Seq::<bool>::empty()
    } else {
        tags_bits(tags.drop_last()) + value_bits(tag_code(tags.last()), 2)
    }
}

/// The version and the header of a payload: the lengths of the columns of integers
/// and of truth values, one bit that says whether every string is printable ASCII,
/// and the lengths of the columns of strings and of tags.
pub open spec fn header_bits(columns: Columns, version: u8) -> Seq<bool> {
    value_bits(version as nat, 8) + varint_bits(columns.integers.len()) + varint_bits(
        columns.booleans.len(),
    ) + seq![texts_printable(columns.strings)] + varint_bits(columns.strings.len()) + varint_bits(
        columns.tags.len(),
    )
}

/// A payload on the wire: the version and the header, then the integers, the truth
/// values as one bit each, the strings and the tags.
pub open spec fn payload_bits(columns: Columns, version: u8) -> Seq<bool> {
    header_bits(columns, version) + ints_bits(columns.integers) + columns.booleans + texts_bits(
        common_lengths(),
        columns.strings,
        texts_printable(columns.strings),
    ) + tags_bits(columns.tags)
}

impl BitPacker {
    /// Appends a tag with two bits.
    pub fn write_property_type(&mut self, tag: PropertyType)
        requires
            old(self).wf(),
        ensures
            final(self).wf(),
            final(self)@ == old(self)@ + value_bits(tag_code(tag), 2),
    {
        let (bits, width) = tag.to_bits();
        self.write_bits(bits, width);
    }
}

/// Why a payload cannot be read.
#[derive(Copy, Clone, Debug, PartialEq, Eq, Structural)]
pub enum DecodeError {
    /// The bytes end before the payload does, or hold bits that spell no value.
    Truncated,
    /// The first byte is not the version that the reader was told to expect.
    VersionMismatch,
}

/// Reads `n` integers from `pos` on.
pub open spec fn ints_parse(stream: Seq<bool>, pos: int, n: nat) -> Option<(Seq<i64>, int)>
    decreases n,
{
    if n == 0 {
        Some((Seq::<i64>::empty(), pos))
    } else {
        match ints_parse(stream, pos, (n - 1) as nat) {
            Some((front, mid)) => match int_parse(stream, mid) {
                Some((value, next)) => Some((front.push(value), next)),
                None => None,
            },
            None => None,
        }
    }
}

/// Reads `n` truth values from `pos` on, one bit each.
pub open spec fn bools_parse(stream: Seq<bool>, pos: int, n: nat) -> Option<(Seq<bool>, int)> {
    if 0 <= pos && pos + n <= stream.len() {
        Some((stream.subrange(pos, pos + n), pos + n))
    } else {
        None
    }
}

/// Reads a tag of two bits at `pos`.
pub open spec fn tag_parse(stream: Seq<bool>, pos: int) -> Option<(PropertyType, int)> {
    if 0 <= pos && pos + 2 <= stream.len() {
        Some((code_tag(bits_value(stream.subrange(pos, pos + 2))), pos + 2))
    } else {
        None
    }
}

/// Reads `n` tags from `pos` on.
pub open spec fn tags_parse(stream: Seq<bool>, pos: int, n: nat) -> Option<
    (Seq<PropertyType>, int),
>
    decreases n,
{
    if n == 0 {
        Some((Seq::<PropertyType>::empty(), pos))
    } else {
        match tags_parse(stream, pos, (n - 1) as nat) {
            Some((front, mid)) => match tag_parse(stream, mid) {
                Some((tag, next)) => Some((front.push(tag), next)),
                None => None,
            },
            None => None,
        }
    }
}

/// The header of a payload: the lengths of the four columns and whether its strings
/// are all printable ASCII.
pub struct Header {
    pub integers: nat,
    pub booleans: nat,
    pub all_ascii: bool,
    pub strings: nat,
    pub tags: nat,
}

/// Reads the header of a payload at `pos`.
pub open spec fn header_parse(stream: Seq<bool>, pos: int) -> Option<(Header, int)> {
    match varint_parse(stream, pos) {
        Some((integers, at_booleans)) => match varint_parse(stream, at_booleans) {
            Some((booleans, at_flag)) => if 0 <= at_flag < stream.len() {
                match varint_parse(stream, at_flag + 1) {
                    Some((strings, at_tags)) => match varint_parse(stream, at_tags) {
                        Some((tags, next)) => Some(
                            (
                                Header {
                                    integers,
                                    booleans,
                                    all_ascii: stream[at_flag],
                                    strings,
                                    tags,
                                },
                                next,
                            ),
                        ),
                        None => None,
                    },
                    None => None,
                }
            } else {
                None
            },
            None => None,
        },
        None => None,
    }
}

/// Reads the header at `pos` and the four columns behind it.
pub open spec fn columns_parse(stream: Seq<bool>, pos: int) -> Option<Columns> {
    match header_parse(stream, pos) {
        Some((header, at_integers)) => match ints_parse(stream, at_integers, header.integers) {
            Some((integers, at_booleans)) => match bools_parse(
                stream,
                at_booleans,
                header.booleans,
            ) {
                Some((booleans, at_strings)) => match texts_parse(
                    common_lengths(),
                    stream,
                    at_strings,
                    header.strings,
                    header.all_ascii,
                ) {
                    Some((strings, at_tags)) => match tags_parse(stream, at_tags, header.tags) {
                        Some((tags, _)) => Some(Columns { integers, booleans, strings, tags }),
                        None => None,
                    },
                    None => None,
                },
                None => None,
            },
            None => None,
        },
        None => None,
    }
}

/// Reads a payload: the version in the first eight bits, which must be the one
/// expected, then the header and the columns.
pub open spec fn payload_parse(stream: Seq<bool>, version: u8) -> Result<Columns, DecodeError> {
    if stream.len() < 8 {
        Err(DecodeError::Truncated)
    } else if bits_value(stream.subrange(0, 8)) != version {
        Err(DecodeError::VersionMismatch)
    } else {
        match columns_parse(stream, 8) {
            Some(columns) => Ok(columns),
            None => Err(DecodeError::Truncated),
        }
    }
}

/// Where a number of integers cannot be read, no greater number can.
pub proof fn lemma_ints_parse_fails(stream: Seq<bool>, pos: int, n: nat, m: nat)
    requires
        n <= m,
        ints_parse(stream, pos, n).is_none(),
    ensures
        ints_parse(stream, pos, m).is_none(),
    decreases m - n,
{
    if n < m {
        lemma_ints_parse_fails(stream, pos, n + 1, m);
    }
}

/// Where a number of tags cannot be read, no greater number can.
pub proof fn lemma_tags_parse_fails(stream: Seq<bool>, pos: int, n: nat, m: nat)
    requires
        n <= m,
        tags_parse(stream, pos, n).is_none(),
    ensures
        tags_parse(stream, pos, m).is_none(),
    decreases m - n,
{
    if n < m {
        lemma_tags_parse_fails(stream, pos, n + 1, m);
    }
}

impl<'a> BitUnpacker<'a> {
    /// Reads a tag of two bits.
    pub fn read_property_type(&mut self) -> (tag: Option<PropertyType>)
        ensures
            final(self).stream() == old(self).stream(),
            match tag_parse(old(self).stream(), old(self).position() as int) {
                Some((parsed, next)) => tag == Some(parsed) && final(self).position() == next,
                None => tag.is_none() && final(self).position() == old(self).position(),
            },
    {
        match self.read_bits(2) {
            Some(bits) => {
                proof {
                    crate::bits::lemma_bits_value_bound(
                        old(self).stream().subrange(
                            old(self).position() as int,
                            old(self).position() as int + 2,
                        ),
                    );
                    vstd::arithmetic::power2::lemma2_to64();
                }
                PropertyType::from_bits(bits)
            },
            None => None,
        }
    }
}

/// Takes the first value of an array off the columns: its tag, then what it holds.
pub open spec fn take_value_spec(columns: Columns) -> Option<(Tree, Columns)>
    decreases columns.tags.len(), 0nat,
{
    if columns.tags.len() == 0 {
        None
    } else {
        let rest = Columns { tags: columns.tags.skip(1), ..columns };
        match columns.tags[0] {
            PropertyType::String => if rest.strings.len() > 0 {
                Some(
                    (Tree::String(rest.strings[0]), Columns { strings: rest.strings.skip(1), ..rest }),
                )
            } else {
                None
            },
            PropertyType::Bool => if rest.booleans.len() > 0 {
                Some(
                    (Tree::Bool(rest.booleans[0]), Columns { booleans: rest.booleans.skip(1), ..rest }),
                )
            } else {
                None
            },
            PropertyType::Integer => if rest.integers.len() > 0 {
                Some(
                    (
                        Tree::Integer(rest.integers[0]),
                        Columns { integers: rest.integers.skip(1), ..rest },
                    ),
                )
            } else {
                None
            },
            PropertyType::Array => match take_array_spec(rest) {
                Some((values, after)) => Some((Tree::Array(values), after)),
                None => None,
            },
        }
    }
}

/// Takes `n` values of an array off the columns.
pub open spec fn take_values_spec(columns: Columns, n: nat) -> Option<(Seq<Tree>, Columns)>
    decreases columns.tags.len(), 1nat,
{
    if n == 0 {
        Some((Seq::<Tree>::empty(), columns))
    } else {
        match take_value_spec(columns) {
            Some((value, rest)) => if rest.tags.len() < columns.tags.len() {
                match take_values_spec(rest, (n - 1) as nat) {
                    Some((values, after)) => Some((seq![value] + values, after)),
                    None => None,
                }
            } else {
                None
            },
            None => None,
        }
    }
}

/// Takes an array off the columns: its length, which is the first integer, then
/// that many values.
pub open spec fn take_array_spec(columns: Columns) -> Option<(Seq<Tree>, Columns)>
    decreases columns.tags.len(), 2nat,
{
    if columns.integers.len() == 0 {
        None
    } else {
        take_values_spec(
            Columns { integers: columns.integers.skip(1), ..columns },
            int_code(columns.integers[0]),
        )
    }
}

/// The reader of a payload: the four columns, from which values are taken in the
/// order in which they were written.
#[derive(Debug)]
pub struct Deserializer {
    integers: VecDeque<i64>,
    strings: VecDeque<String>,
    booleans: VecDeque<bool>,
    property_types: VecDeque<PropertyType>,
}

impl View for Deserializer {
    type V = Columns;

    /// The four columns as they are left to take from.
    closed spec fn view(&self) -> Columns {
        Columns {
            integers: self.integers@,
            booleans: self.booleans@,
            strings: owned_texts(self.strings@),
            tags: self.property_types@,
        }
    }
}

impl Deserializer {
    /// A reader with four empty columns.
    pub fn new() -> (deserializer: Self)
        ensures
            deserializer@ == no_columns(),
    {
        let deserializer = Deserializer {
            integers: VecDeque::new(),
            strings: VecDeque::new(),
            booleans: VecDeque::new(),
            property_types: VecDeque::new(),
        };
        proof {
            assert(deserializer@.strings =~= Seq::<Seq<char>>::empty());
        }
        deserializer
    }

    /// Empties the four columns.
    fn reset(&mut self)
        ensures
            final(self)@ == no_columns(),
            final(self).integers@.len() == 0,
            final(self).booleans@.len() == 0,
            final(self).strings@.len() == 0,
            final(self).property_types@.len() == 0,
    {
        self.integers.clear();
        self.strings.clear();
        self.booleans.clear();
        self.property_types.clear();
        proof {
            assert(self@.strings =~= Seq::<Seq<char>>::empty());
        }
    }

    /// Reads the header and the four columns into the empty reader.
    fn read_columns(&mut self, unpacker: &mut BitUnpacker, table: &HuffmanTable) -> (done: Option<
        (),
    >)
        requires
            old(self).integers@.len() == 0,
            old(self).booleans@.len() == 0,
            old(self).strings@.len() == 0,
            old(self).property_types@.len() == 0,
            table@ == common_lengths(),
        ensures
            match columns_parse(old(unpacker).stream(), old(unpacker).position() as int) {
                Some(columns) => done.is_some() && final(self)@ == columns,
                None => done.is_none(),
            },
    {
        let ghost stream = unpacker.stream();
        let int_len = match unpacker.read_varint() {
            Some(n) => n,
            None => {
                return None;
            },
        };
        let bool_len = match unpacker.read_varint() {
            Some(n) => n,
            None => {
                return None;
            },
        };
        let all_ascii = match unpacker.read_bit() {
            Some(bit) => bit,
            None => {
                return None;
            },
        };
        let string_len = match unpacker.read_varint() {
            Some(n) => n,
            None => {
                return None;
            },
        };
        let tags_len = match unpacker.read_varint() {
            Some(n) => n,
            None => {
                return None;
            },
        };
        let ghost header = Header {
            integers: int_len as nat,
            booleans: bool_len as nat,
            all_ascii,
            strings: string_len as nat,
            tags: tags_len as nat,
        };
        let ghost at_integers = unpacker.position() as int;
        assert(header_parse(stream, old(unpacker).position() as int) == Some(
            (header, at_integers),
        ));
        let mut i: u64 = 0;
        while i < int_len
            invariant
                i <= int_len,
                unpacker.stream() == stream,
                old(unpacker).stream() == stream,
                ints_parse(stream, at_integers, i as nat) == Some(
                    (self.integers@, unpacker.position() as int),
                ),
                self.booleans@.len() == 0,
                self.strings@.len() == 0,
                self.property_types@.len() == 0,
                header_parse(stream, old(unpacker).position() as int) == Some(
                    (header, at_integers),
                ),
                header.integers == int_len,
            decreases int_len - i,
        {
            match unpacker.read_int() {
                Some(value) => {
                    self.integers.push_back(value);
                },
                None => {
                    proof {
                        lemma_ints_parse_fails(
                            stream,
                            at_integers,
                            (i + 1) as nat,
                            int_len as nat,
                        );
                    }
                    return None;
                },
            }
            i += 1;
        }
        let ghost at_booleans = unpacker.position() as int;
        let ghost integers = self.integers@;
        let mut i: u64 = 0;
        proof {
            assert(self.booleans@ =~= stream.subrange(at_booleans, at_booleans + 0));
        }
        while i < bool_len
            invariant
                i <= bool_len,
                0 <= at_booleans,
                unpacker.stream() == stream,
                old(unpacker).stream() == stream,
                unpacker.position() == at_booleans + i,
                at_booleans + i <= stream.len(),
                self.booleans@ == stream.subrange(at_booleans, at_booleans + i),
                self.integers@ == integers,
                self.strings@.len() == 0,
                self.property_types@.len() == 0,
                header_parse(stream, old(unpacker).position() as int) == Some(
                    (header, at_integers),
                ),
                ints_parse(stream, at_integers, header.integers) == Some((integers, at_booleans)),
                header.booleans == bool_len,
            decreases bool_len - i,
        {
            match unpacker.read_bit() {
                Some(value) => {
                    proof {
                        assert(stream.subrange(at_booleans, at_booleans + i).push(value)
                            =~= stream.subrange(at_booleans, at_booleans + i + 1));
                    }
                    self.booleans.push_back(value);
                },
                None => {
                    return None;
                },
            }
            i += 1;
        }
        let ghost at_strings = unpacker.position() as int;
        let ghost booleans = self.booleans@;
        let mut i: u64 = 0;
        proof {
            assert(owned_texts(self.strings@) =~= Seq::<Seq<char>>::empty());
        }
        while i < string_len
            invariant
                i <= string_len,
                unpacker.stream() == stream,
                old(unpacker).stream() == stream,
                table@ == common_lengths(),
                texts_parse(common_lengths(), stream, at_strings, i as nat, all_ascii) == Some(
                    (owned_texts(self.strings@), unpacker.position() as int),
                ),
                self.integers@ == integers,
                self.booleans@ == booleans,
                self.property_types@.len() == 0,
                header_parse(stream, old(unpacker).position() as int) == Some(
                    (header, at_integers),
                ),
                ints_parse(stream, at_integers, header.integers) == Some((integers, at_booleans)),
                bools_parse(stream, at_booleans, header.booleans) == Some((booleans, at_strings)),
                header.strings == string_len,
                header.all_ascii == all_ascii,
            decreases string_len - i,
        {
            match unpacker.read_string(all_ascii, table) {
                Some(text) => {
                    proof {
                        assert(owned_texts(self.strings@.push(text)) =~= owned_texts(
                            self.strings@,
                        ).push(text@));
                    }
                    self.strings.push_back(text);
                },
                None => {
                    proof {
                        crate::text::lemma_texts_parse_fails(
                            common_lengths(),
                            stream,
                            at_strings,
                            (i + 1) as nat,
                            string_len as nat,
                            all_ascii,
                        );
                    }
                    return None;
                },
            }
            i += 1;
        }
        let ghost at_tags = unpacker.position() as int;
        let ghost strings = owned_texts(self.strings@);
        let mut i: u64 = 0;
        while i < tags_len
            invariant
                i <= tags_len,
                unpacker.stream() == stream,
                old(unpacker).stream() == stream,
                tags_parse(stream, at_tags, i as nat) == Some(
                    (self.property_types@, unpacker.position() as int),
                ),
                self.integers@ == integers,
                self.booleans@ == booleans,
                owned_texts(self.strings@) == strings,
                header_parse(stream, old(unpacker).position() as int) == Some(
                    (header, at_integers),
                ),
                ints_parse(stream, at_integers, header.integers) == Some((integers, at_booleans)),
                bools_parse(stream, at_booleans, header.booleans) == Some((booleans, at_strings)),
                texts_parse(
                    common_lengths(),
                    stream,
                    at_strings,
                    header.strings,
                    header.all_ascii,
                ) == Some((strings, at_tags)),
                header.tags == tags_len,
            decreases tags_len - i,
        {
            match unpacker.read_property_type() {
                Some(tag) => {
                    self.property_types.push_back(tag);
                },
                None => {
                    proof {
                        lemma_tags_parse_fails(stream, at_tags, (i + 1) as nat, tags_len as nat);
                    }
                    return None;
                },
            }
            i += 1;
        }
        Some(())
    }

    /// Fills the reader from a payload of the expected version. What the reader held
    /// before is dropped, and after a failure it holds nothing.
    pub fn read_bytes(&mut self, bytes: &[u8], version: u8) -> (done: Result<(), DecodeError>)
        ensures
            match payload_parse(bytes_bits(bytes@), version) {
                Ok(columns) => done.is_ok() && final(self)@ == columns,
                Err(error) => done == Err::<(), DecodeError>(error) && final(self)@
                    == no_columns(),
            },
    {
        self.reset();
        let mut unpacker = BitUnpacker::new(bytes);
        match unpacker.read_byte() {
            Some(found) => {
                if found != version {
                    return Err(DecodeError::VersionMismatch);
                }
            },
            None => {
                return Err(DecodeError::Truncated);
            },
        }
        let table = HuffmanTable::common_table();
        match self.read_columns(&mut unpacker, &table) {
            Some(_) => Ok(()),
            None => {
                self.reset();
                Err(DecodeError::Truncated)
            },
        }
    }

    /// Takes the first integer off its column.
    pub fn take_int(&mut self) -> (value: Option<i64>)
        ensures
            match value {
                Some(v) => {
                    &&& old(self)@.integers.len() > 0
                    &&& v == old(self)@.integers[0]
                    &&& final(self)@ == (Columns {
                        integers: old(self)@.integers.skip(1),
                        ..old(self)@
                    })
                },
                None => old(self)@.integers.len() == 0 && final(self)@ == old(self)@,
            },
    {
        let value = self.integers.pop_front();
        proof {
            if value.is_some() {
                assert(self@.integers =~= old(self)@.integers.skip(1));
            }
        }
        value
    }

    /// Takes the first truth value off its column.
    pub fn take_bool(&mut self) -> (value: Option<bool>)
        ensures
            match value {
                Some(v) => {
                    &&& old(self)@.booleans.len() > 0
                    &&& v == old(self)@.booleans[0]
                    &&& final(self)@ == (Columns {
                        booleans: old(self)@.booleans.skip(1),
                        ..old(self)@
                    })
                },
                None => old(self)@.booleans.len() == 0 && final(self)@ == old(self)@,
            },
    {
        let value = self.booleans.pop_front();
        proof {
            if value.is_some() {
                assert(self@.booleans =~= old(self)@.booleans.skip(1));
            }
        }
        value
    }

    /// Takes the first string off its column.
    pub fn take_string(&mut self) -> (value: Option<String>)
        ensures
            match value {
                Some(v) => {
                    &&& old(self)@.strings.len() > 0
                    &&& v@ == old(self)@.strings[0]
                    &&& final(self)@ == (Columns {
                        strings: old(self)@.strings.skip(1),
                        ..old(self)@
                    })
                },
                None => old(self)@.strings.len() == 0 && final(self)@ == old(self)@,
            },
    {
        let value = self.strings.pop_front();
        proof {
            if value.is_some() {
                assert(self@.strings =~= old(self)@.strings.skip(1));
            }
        }
        value
    }

    /// Takes the first tag off its column.
    pub fn take_property_type(&mut self) -> (value: Option<PropertyType>)
        ensures
            match value {
                Some(v) => {
                    &&& old(self)@.tags.len() > 0
                    &&& v == old(self)@.tags[0]
                    &&& final(self)@ == (Columns { tags: old(self)@.tags.skip(1), ..old(self)@ })
                },
                None => old(self)@.tags.len() == 0 && final(self)@ == old(self)@,
            },
    {
        let value = self.property_types.pop_front();
        proof {
            if value.is_some() {
                assert(self@.tags =~= old(self)@.tags.skip(1));
            }
        }
        value
    }

    /// Takes an array off the columns: its length, then each element by its tag.
    /// Where a column runs out, nothing is returned, and what was taken is lost.
    pub fn take_array(&mut self) -> (values: Option<Vec<PropertyValue>>)
        ensures
            match take_array_spec(old(self)@) {
                Some((trees, rest)) => values.is_some() && trees_of(values.unwrap()@) == trees
                    && final(self)@ == rest,
                None => values.is_none(),
            },
            final(self)@.tags.len() <= old(self)@.tags.len(),
        decreases old(self)@.tags.len(),
    {
        let length = match self.take_int() {
            Some(length) => int_to_pattern(length),
            None => {
                return None;
            },
        };
        let ghost start = self@;
        let mut values: Vec<PropertyValue> = Vec::new();
        let mut i: u64 = 0;
        proof {
            match take_values_spec(start, length as nat) {
                Some((rest, after)) => {
                    assert(trees_of(values@) + rest =~= rest);
                },
                None => {},
            }
        }
        while i < length
            invariant
                i <= length,
                self@.tags.len() <= old(self)@.tags.len(),
                take_array_spec(old(self)@) == take_values_spec(start, length as nat),
                take_values_spec(start, length as nat) == match take_values_spec(
                    self@,
                    (length - i) as nat,
                ) {
                    Some((rest, after)) => Some((trees_of(values@) + rest, after)),
                    None => None,
                },
            decreases length - i,
        {
            let ghost before = self@;
            let tag = match self.take_property_type() {
                Some(tag) => tag,
                None => {
                    return None;
                },
            };
            let value = match tag {
                PropertyType::String => match self.take_string() {
                    Some(text) => PropertyValue::String(text),
                    None => {
                        return None;
                    },
                },
                PropertyType::Bool => match self.take_bool() {
                    Some(value) => PropertyValue::Bool(value),
                    None => {
                        return None;
                    },
                },
                PropertyType::Integer => match self.take_int() {
                    Some(value) => PropertyValue::Integer(value),
                    None => {
                        return None;
                    },
                },
                PropertyType::Array => match self.take_array() {
                    Some(inner) => {
                        proof {
                            lemma_array_view(inner);
                        }
                        PropertyValue::Array(inner)
                    },
                    None => {
                        return None;
                    },
                },
            };
            proof {
                assert(take_value_spec(before) == Some((value@, self@)));
                assert(trees_of(values@.push(value)) =~= trees_of(values@).push(value@));
                match take_values_spec(self@, (length - i - 1) as nat) {
                    Some((rest, after)) => {
                        assert(trees_of(values@).push(value@) + rest =~= trees_of(values@) + (
                        seq![value@] + rest));
                    },
                    None => {},
                }
            }
            values.push(value);
            i += 1;
        }
        proof {
            assert(trees_of(values@) + Seq::<Tree>::empty() =~= trees_of(values@));
        }
        Some(values)
    }
}

/// A type that is written as a payload and read back from one.
pub trait IntoFormat {
    /// The version of the layout of the type.
    fn version() -> u8;

    /// Writes the fields in their fixed order.
    fn serialize<'a>(&'a self, serializer: &mut Serializer<'a>)
        where Self: Sized;

    /// Reads a payload and takes the fields in the order in which they were written.
    fn deserialize(data: &[u8], deserializer: &mut Deserializer) -> Option<Self>
        where Self: Sized;
}

/// A run of integers as it is written, where it stands in a stream, is read back as
/// it was, and the reader ends just behind it.
pub proof fn lemma_ints_roundtrip(stream: Seq<bool>, pos: int, values: Seq<i64>)
    requires
        holds_at(stream, pos, ints_bits(values)),
    ensures
        ints_parse(stream, pos, values.len()) == Some((values, pos + ints_bits(values).len())),
    decreases values.len(),
{
    if values.len() > 0 {
        let front = values.drop_last();
        lemma_holds_at_concat(stream, pos, ints_bits(front), int_bits(values.last()));
        lemma_ints_roundtrip(stream, pos, front);
        lemma_int_roundtrip(stream, pos + ints_bits(front).len(), values.last());
        assert(front.push(values.last()) =~= values);
    }
}

/// A run of tags as it is written, where it stands in a stream, is read back as it
/// was, and the reader ends just behind it.
pub proof fn lemma_tags_roundtrip(stream: Seq<bool>, pos: int, tags: Seq<PropertyType>)
    requires
        holds_at(stream, pos, tags_bits(tags)),
    ensures
        tags_parse(stream, pos, tags.len()) == Some((tags, pos + tags_bits(tags).len())),
    decreases tags.len(),
{
    if tags.len() > 0 {
        let front = tags.drop_last();
        let last = value_bits(tag_code(tags.last()), 2);
        lemma_holds_at_concat(stream, pos, tags_bits(front), last);
        lemma_tags_roundtrip(stream, pos, front);
        lemma_read_back(stream, pos + tags_bits(front).len(), tag_code(tags.last()), 2);
        vstd::arithmetic::power2::lemma2_to64();
        assert(front.push(tags.last()) =~= tags);
    }
}

/// Columns that a payload can hold: no column has more than `2^64 - 1` values, and
/// no string more than `2^64 - 1` bytes of UTF-8.
pub open spec fn columns_fit(columns: Columns) -> bool {
    &&& columns.integers.len() <= u64::MAX
    &&& columns.booleans.len() <= u64::MAX
    &&& columns.strings.len() <= u64::MAX
    &&& columns.tags.len() <= u64::MAX
    &&& texts_fit(columns.strings)
}

/// A payload that a stream starts with is read back as the columns that were
/// written, whatever follows it in the stream.
pub proof fn lemma_payload_roundtrip(stream: Seq<bool>, columns: Columns, version: u8)
    requires
        columns_fit(columns),
        holds_at(stream, 0, payload_bits(columns, version)),
    ensures
        payload_parse(stream, version) == Ok::<Columns, DecodeError>(columns),
{
    let lens = common_lengths();
    let all_ascii = texts_printable(columns.strings);
    let v = value_bits(version as nat, 8);
    let ni = varint_bits(columns.integers.len());
    let nb = varint_bits(columns.booleans.len());
    let flag = seq![all_ascii];
    let ns = varint_bits(columns.strings.len());
    let nt = varint_bits(columns.tags.len());
    let ints = ints_bits(columns.integers);
    let bools = columns.booleans;
    let texts = texts_bits(lens, columns.strings, all_ascii);
    let tags = tags_bits(columns.tags);
    vstd::arithmetic::power2::lemma2_to64();
    crate::huffman::lemma_common_lengths();
    assert(covers_printable(lens));
    let header = v + ni + nb + flag + ns + nt;
    lemma_holds_at_concat(stream, 0, header + ints + bools + texts, tags);
    lemma_holds_at_concat(stream, 0, header + ints + bools, texts);
    lemma_holds_at_concat(stream, 0, header + ints, bools);
    lemma_holds_at_concat(stream, 0, header, ints);
    lemma_holds_at_concat(stream, 0, v + ni + nb + flag + ns, nt);
    lemma_holds_at_concat(stream, 0, v + ni + nb + flag, ns);
    lemma_holds_at_concat(stream, 0, v + ni + nb, flag);
    lemma_holds_at_concat(stream, 0, v + ni, nb);
    lemma_holds_at_concat(stream, 0, v, ni);
    lemma_read_back(stream, 0, version as nat, 8);
    let at_ni = 8int;
    let at_nb = at_ni + ni.len();
    let at_flag = at_nb + nb.len();
    let at_ns = at_flag + 1;
    let at_nt = at_ns + ns.len();
    let at_ints = at_nt + nt.len();
    let at_bools = at_ints + ints.len();
    let at_texts = at_bools + bools.len();
    let at_tags = at_texts + texts.len();
    lemma_varint_roundtrip(stream, at_ni, columns.integers.len());
    lemma_varint_roundtrip(stream, at_nb, columns.booleans.len());
    assert(stream[at_flag] == stream.subrange(at_flag, at_flag + 1)[0]);
    lemma_varint_roundtrip(stream, at_ns, columns.strings.len());
    lemma_varint_roundtrip(stream, at_nt, columns.tags.len());
    let header_read = Header {
        integers: columns.integers.len(),
        booleans: columns.booleans.len(),
        all_ascii,
        strings: columns.strings.len(),
        tags: columns.tags.len(),
    };
    assert(header_parse(stream, 8) == Some((header_read, at_ints)));
    lemma_ints_roundtrip(stream, at_ints, columns.integers);
    assert(bools_parse(stream, at_bools, bools.len()) == Some((bools, at_texts)));
    lemma_texts_roundtrip(lens, stream, at_texts, columns.strings, all_ascii);
    lemma_tags_roundtrip(stream, at_tags, columns.tags);
}

/// What is written is read back: the bytes that a writer hands out for its columns
/// are read, under the same version, as those columns.
pub proof fn lemma_finish_read_roundtrip(columns: Columns, version: u8)
    requires
        columns_fit(columns),
    ensures
        payload_parse(bytes_bits(pack_bits(payload_bits(columns, version))), version) == Ok::<
            Columns,
            DecodeError,
        >(columns),
{
    let bits = payload_bits(columns, version);
    lemma_packed_holds(bits);
    lemma_payload_roundtrip(bytes_bits(pack_bits(bits)), columns, version);
}

/// A tree whose arrays all have at most `2^64 - 1` elements.
pub open spec fn tree_fits(tree: Tree) -> bool
    decreases tree, 0nat,
{
    match tree {
        Tree::Array(values) => trees_fit(values),
        _ => true,
    }
}

/// A run of at most `2^64 - 1` trees whose arrays all have at most `2^64 - 1` elements.
pub open spec fn trees_fit(values: Seq<Tree>) -> bool
    decreases values, 1nat,
{
    &&& values.len() <= u64::MAX
    &&& forall|i: int| 0 <= i < values.len() ==> tree_fits(#[trigger] values[i])
}

/// The columns of a value as an array element hold its tag first.
pub proof fn lemma_value_columns_tag(value: Tree)
    ensures
        value_columns(value).tags.len() >= 1,
{
}

/// A value as an array element is taken off the columns that start with it, and what
/// is behind it is left.
pub proof fn lemma_take_value(value: Tree, rest: Columns)
    requires
        tree_fits(value),
    ensures
        take_value_spec(columns_append(value_columns(value), rest)) == Some((value, rest)),
    decreases value, 0nat,
{
    let columns = columns_append(value_columns(value), rest);
    let untagged = Columns { tags: columns.tags.skip(1), ..columns };
    match value {
        Tree::String(s) => {
            let left = Columns { strings: untagged.strings.skip(1), ..untagged };
            assert(left.integers =~= rest.integers && left.booleans =~= rest.booleans
                && left.strings =~= rest.strings && left.tags =~= rest.tags);
        },
        Tree::Bool(b) => {
            let left = Columns { booleans: untagged.booleans.skip(1), ..untagged };
            assert(left.integers =~= rest.integers && left.booleans =~= rest.booleans
                && left.strings =~= rest.strings && left.tags =~= rest.tags);
        },
        Tree::Integer(i) => {
            let left = Columns { integers: untagged.integers.skip(1), ..untagged };
            assert(left.integers =~= rest.integers && left.booleans =~= rest.booleans
                && left.strings =~= rest.strings && left.tags =~= rest.tags);
        },
        Tree::Array(values) => {
            let inner = columns_append(array_columns(values), rest);
            assert(untagged.integers =~= inner.integers && untagged.booleans =~= inner.booleans
                && untagged.strings =~= inner.strings && untagged.tags =~= inner.tags);
            lemma_take_array(values, rest);
        },
    }
}

/// A run of values is taken off the columns that start with it, and what is behind
/// it is left.
pub proof fn lemma_take_values(values: Seq<Tree>, rest: Columns)
    requires
        trees_fit(values),
    ensures
        take_values_spec(columns_append(values_columns(values), rest), values.len()) == Some(
            (values, rest),
        ),
    decreases values, 1nat,
{
    if values.len() == 0 {
        lemma_columns_append_empty(rest);
        assert(values =~= Seq::<Tree>::empty());
    } else {
        let first = values[0];
        let others = values.skip(1);
        let behind = columns_append(values_columns(others), rest);
        lemma_columns_append_assoc(value_columns(first), values_columns(others), rest);
        lemma_take_value(first, behind);
        lemma_value_columns_tag(first);
        assert(trees_fit(others)) by {
            assert forall|i: int| 0 <= i < others.len() implies tree_fits(#[trigger] others[i]) by {
                assert(others[i] == values[i + 1]);
            }
        }
        lemma_take_values(others, rest);
        assert(seq![first] + others =~= values);
    }
}

/// An array is taken off the columns that start with it, and what is behind it is left.
pub proof fn lemma_take_array(values: Seq<Tree>, rest: Columns)
    requires
        trees_fit(values),
    ensures
        take_array_spec(columns_append(array_columns(values), rest)) == Some((values, rest)),
    decreases values, 2nat,
{
    let columns = columns_append(array_columns(values), rest);
    let inner = columns_append(values_columns(values), rest);
    let left = Columns { integers: columns.integers.skip(1), ..columns };
    assert(left.integers =~= inner.integers && left.booleans =~= inner.booleans && left.strings
        =~= inner.strings && left.tags =~= inner.tags);
    lemma_pattern_roundtrip(0, values.len() as u64);
    lemma_take_values(values, rest);
}

/// Every typed value holds a tree whose arrays have at most `2^64 - 1` elements.
pub proof fn lemma_value_fits(value: PropertyValue)
    ensures
        tree_fits(tree_of(value)),
    decreases value,
{
    match value {
        PropertyValue::Array(values) => {
            vstd::std_specs::vec::axiom_spec_len(&values);
            let trees = tree_of(value)->Array_0;
            assert forall|i: int| 0 <= i < trees.len() implies tree_fits(#[trigger] trees[i]) by {
                lemma_value_fits(values[i]);
            }
        },
        _ => {},
    }
}

/// Decoding what was encoded gives the tree back: an array that is written and
/// finished under a version is read under that version as columns from which the
/// same array is taken, and nothing is left.
pub proof fn lemma_roundtrip(values: Seq<Tree>, version: u8)
    requires
        trees_fit(values),
        columns_fit(array_columns(values)),
    ensures
        payload_parse(
            bytes_bits(pack_bits(payload_bits(array_columns(values), version))),
            version,
        ) == Ok::<Columns, DecodeError>(array_columns(values)),
        take_array_spec(array_columns(values)) == Some((values, no_columns())),
{
    lemma_finish_read_roundtrip(array_columns(values), version);
    lemma_columns_append_empty(array_columns(values));
    lemma_take_array(values, no_columns());
}

} // verus!
