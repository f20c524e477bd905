//! The mathematical models of scalars, arrays and records, and their bytes
//! on the wire.

use crate::bytes::le_bytes;
use crate::error::Fault;
use crate::value::{tag_width, wire_safe, TypedValue};
use vstd::prelude::*;
use vstd::utf8::encode_utf8;

verus! {

/// The model of a scalar: one typed value. Its name is the key under which a
/// record holds it.
pub struct ScalarEntry {
    pub value: TypedValue,
}

/// The model of an array: its dimensions, outermost first, and its elements
/// in row-major order.
pub struct ArrayEntry {
    pub dimensions: Seq<i32>,
    pub elements: Seq<TypedValue>,
}

/// The model of a record: the two counts as they stand in its header, the
/// names of its scalars and of its arrays in wire order, and the entries by
/// name.
pub struct Record {
    pub scalar_count: i32,
    pub array_count: i32,
    pub scalar_order: Seq<Seq<char>>,
    pub array_order: Seq<Seq<char>>,
    pub scalars: Map<Seq<char>, ScalarEntry>,
    pub arrays: Map<Seq<char>, ArrayEntry>,
}

/// The code that opens every record.
pub const RECORD_CODE: i32 = 65537;

/// The bytes of a record's header: code, size and the two counts.
pub const HEADER_BYTES: usize = 16;

/// The first `n` names of a list, each with the entry that a map holds under
/// it.
pub open spec fn listed_items<E>(order: Seq<Seq<char>>, entries: Map<Seq<char>, E>, n: nat) -> Seq<
    (Seq<char>, E),
> {
    Seq::new(n, |i: int| (order[i], entries[order[i]]))
}

/// The bytes of a name on the wire: UTF-8, closed by a zero byte.
pub open spec fn name_bytes(name: Seq<char>) -> Seq<u8> {
    encode_utf8(name) + seq![0u8]
}

/// The dimensions of an array on the wire, four bytes each.
pub open spec fn dimension_bytes(dimensions: Seq<i32>) -> Seq<u8>
    decreases dimensions.len(),
{
    if dimensions.len() == 0 {
        Seq::empty()
    } else {
        dimension_bytes(dimensions.drop_last()) + le_bytes(dimensions.last() as int, 4)
    }
}

/// The bytes of a run of values, one after the other.
pub open spec fn value_bytes(values: Seq<TypedValue>) -> Seq<u8>
    decreases values.len(),
{
    if values.len() == 0 {
        Seq::empty()
    } else {
        value_bytes(values.drop_last()) + values.last().bytes()
    }
}

/// The product of the dimensions: the number of elements they announce.
pub open spec fn element_count(dimensions: Seq<i32>) -> int
    decreases dimensions.len(),
{
    if dimensions.len() == 0 {
        1
    } else {
        element_count(dimensions.drop_last()) * dimensions.last()
    }
}

impl ScalarEntry {
    /// A scalar on the wire: the tag of its value, then the value.
    pub open spec fn bytes(self) -> Seq<u8> {
        le_bytes(self.value.tag() as int, 1) + self.value.bytes()
    }
}

impl ArrayEntry {
    /// An array on the wire: the tag of its first element, the number of
    /// dimensions, the dimensions, then the elements.
    pub open spec fn bytes(self) -> Seq<u8> {
        le_bytes(self.elements[0].tag() as int, 1) + le_bytes(self.dimensions.len() as int, 4)
            + dimension_bytes(self.dimensions) + value_bytes(self.elements)
    }

    /// What `RawDmapArray::to_bytes` asks of an array: a first element to
    /// take the tag from, and a number of dimensions that fits the four-byte
    /// field.
    pub open spec fn encodable(self) -> bool {
        self.elements.len() > 0 && self.dimensions.len() <= i32::MAX
    }

    /// All elements are of one type.
    pub open spec fn homogeneous(self) -> bool {
        forall|i: int|
            0 <= i < self.elements.len() ==> (#[trigger] self.elements[i]).tag()
                == self.elements[0].tag()
    }

    /// The invariant of an array: positive dimensions whose product is the
    /// number of elements, and elements of one type.
    pub open spec fn well_formed(self) -> bool {
        &&& forall|i: int| 0 <= i < self.dimensions.len() ==> #[trigger] self.dimensions[i] > 0
        &&& self.elements.len() == element_count(self.dimensions)
        &&& self.homogeneous()
    }

    /// Equality of arrays: as far as both have dimensions they have the same,
    /// and as far as both have elements they have the same. Where one is
    /// longer than the other, what it has more is not compared.
    pub open spec fn agrees(self, other: ArrayEntry) -> bool {
        &&& forall|i: int|
            0 <= i < self.dimensions.len() && i < other.dimensions.len() ==> self.dimensions[i]
                == other.dimensions[i]
        &&& forall|i: int|
            0 <= i < self.elements.len() && i < other.elements.len() ==> self.elements[i]
                == other.elements[i]
    }

    /// The bounds that the decoder sets on an array of a record of
    /// `record_size` bytes: the number of dimensions, each dimension, the
    /// number of elements and the bytes they take at their declared width may
    /// none exceed `record_size`.
    pub open spec fn fits(self, record_size: int) -> bool {
        &&& self.dimensions.len() <= record_size
        &&& forall|i: int|
            0 <= i < self.dimensions.len() ==> #[trigger] self.dimensions[i] <= record_size
        &&& element_count(self.dimensions) <= record_size
        &&& element_count(self.dimensions) * tag_width(self.elements[0].tag()) <= record_size
    }

    /// The bound that an array that does not fit a record of `record_size`
    /// bytes breaks first, in the order in which the decoder checks them.
    pub open spec fn refusal(self, record_size: int) -> Fault {
        if self.dimensions.len() > record_size {
            Fault::DimensionCountExceedsSize
        } else if exists|i: int|
            0 <= i < self.dimensions.len() && #[trigger] self.dimensions[i] > record_size {
            Fault::DimensionExceedsSize
        } else if element_count(self.dimensions) > record_size {
            Fault::ElementsExceedSize
        } else {
            Fault::ArrayExceedsSize
        }
    }

    /// Whether the wire can carry the array and give it back: it is
    /// well-formed, has at least one dimension, no more of them than the
    /// four-byte field can count, and portable elements.
    pub open spec fn portable(self) -> bool {
        &&& self.well_formed()
        &&& 1 <= self.dimensions.len() <= i32::MAX
        &&& forall|i: int| 0 <= i < self.elements.len() ==> (#[trigger] self.elements[i]).portable()
    }
}

impl Record {
    /// The bytes of the first `n` scalars in wire order, each as its name and
    /// its entry.
    pub open spec fn scalar_bytes(self, n: nat) -> Seq<u8>
        decreases n,
    {
        if n == 0 {
            Seq::empty()
        } else {
            let name = self.scalar_order[n - 1];
            self.scalar_bytes((n - 1) as nat) + name_bytes(name) + self.scalars[name].bytes()
        }
    }

    /// The bytes of the first `n` arrays in wire order, each as its name and
    /// its entry.
    pub open spec fn array_bytes(self, n: nat) -> Seq<u8>
        decreases n,
    {
        if n == 0 {
            Seq::empty()
        } else {
            let name = self.array_order[n - 1];
            self.array_bytes((n - 1) as nat) + name_bytes(name) + self.arrays[name].bytes()
        }
    }

    /// All that follows the header: the scalars, then the arrays.
    pub open spec fn body(self) -> Seq<u8> {
        self.scalar_bytes(self.scalar_order.len()) + self.array_bytes(self.array_order.len())
    }

    /// A record on the wire: the code, the size of the whole record, the two
    /// counts, then the entries.
    pub open spec fn bytes(self) -> Seq<u8> {
        le_bytes(RECORD_CODE as int, 4) + le_bytes(self.body().len() + HEADER_BYTES, 4) + le_bytes(
            self.scalar_count as int,
            4,
        ) + le_bytes(self.array_count as int, 4) + self.body()
    }

    /// Every listed name has its entry.
    pub open spec fn complete(self) -> bool {
        &&& forall|i: int|
            0 <= i < self.scalar_order.len() ==> self.scalars.contains_key(
                #[trigger] self.scalar_order[i],
            )
        &&& forall|i: int|
            0 <= i < self.array_order.len() ==> self.arrays.contains_key(
                #[trigger] self.array_order[i],
            )
    }

    /// Whether two records hold the same scalar, or both none, under `name`.
    pub open spec fn same_scalar(self, other: Record, name: Seq<char>) -> bool {
        if self.scalars.contains_key(name) {
            other.scalars.contains_key(name) && self.scalars[name] == other.scalars[name]
        } else {
            !other.scalars.contains_key(name)
        }
    }

    /// Whether two records hold arrays that agree, or both none, under
    /// `name`.
    pub open spec fn same_array(self, other: Record, name: Seq<char>) -> bool {
        if self.arrays.contains_key(name) {
            other.arrays.contains_key(name) && self.arrays[name].agrees(other.arrays[name])
        } else {
            !other.arrays.contains_key(name)
        }
    }

    /// Equality of records: the counts are the same, and as far as both list
    /// names they list the same, with the same scalar, or arrays that agree,
    /// under each. Where one list is longer than the other, what it has more
    /// is not compared.
    pub open spec fn agrees(self, other: Record) -> bool {
        &&& self.scalar_count == other.scalar_count
        &&& self.array_count == other.array_count
        &&& forall|i: int|
            0 <= i < self.scalar_order.len() && i < other.scalar_order.len()
                ==> self.scalar_order[i] == other.scalar_order[i] && self.same_scalar(
                other,
                #[trigger] self.scalar_order[i],
            )
        &&& forall|i: int|
            0 <= i < self.array_order.len() && i < other.array_order.len() ==> self.array_order[i]
                == other.array_order[i] && self.same_array(other, #[trigger] self.array_order[i])
    }

    /// The invariant of a record: each count is the length of its list of
    /// names, no name is listed twice, each map holds the listed names and no
    /// others, and every array is well-formed.
    pub open spec fn well_formed(self) -> bool {
        &&& self.scalar_count == self.scalar_order.len()
        &&& self.array_count == self.array_order.len()
        &&& self.scalar_order.no_duplicates()
        &&& self.array_order.no_duplicates()
        &&& self.scalars.dom() == self.scalar_order.to_set()
        &&& self.arrays.dom() == self.array_order.to_set()
        &&& forall|i: int|
            0 <= i < self.array_order.len() ==> self.arrays[#[trigger] self.array_order[i]].well_formed()
    }

    /// Whether the wire can carry the record and give it back: each count is
    /// the length of its list of names and at least one, every listed name is
    /// wire-safe and has its entry, every listed value and array is portable,
    /// and the size fits the four-byte field.
    pub open spec fn portable(self) -> bool {
        &&& self.scalar_count == self.scalar_order.len()
        &&& self.array_count == self.array_order.len()
        &&& self.scalar_count >= 1
        &&& self.array_count >= 1
        &&& self.complete()
        &&& forall|i: int|
            0 <= i < self.scalar_order.len() ==> wire_safe(#[trigger] self.scalar_order[i])
                && self.scalars[self.scalar_order[i]].value.portable()
        &&& forall|i: int|
            0 <= i < self.array_order.len() ==> wire_safe(#[trigger] self.array_order[i])
                && self.arrays[self.array_order[i]].portable()
        &&& self.body().len() + HEADER_BYTES <= i32::MAX
    }

    /// The first `n` scalars in wire order, each with its name.
    pub open spec fn scalar_items(self, n: nat) -> Seq<(Seq<char>, ScalarEntry)> {
        listed_items(self.scalar_order, self.scalars, n)
    }

    /// The first `n` arrays in wire order, each with its name.
    pub open spec fn array_items(self, n: nat) -> Seq<(Seq<char>, ArrayEntry)> {
        listed_items(self.array_order, self.arrays, n)
    }

    /// The record with the listed entries alone: what the wire carries of it.
    pub open spec fn listed(self) -> Record {
        Record {
            scalars: self.scalars.restrict(self.scalar_order.to_set()),
            arrays: self.arrays.restrict(self.array_order.to_set()),
            ..self
        }
    }

    /// Every listed name has its entry, and every listed array can be
    /// written.
    pub open spec fn writable(self) -> bool {
        &&& self.complete()
        &&& forall|i: int|
            0 <= i < self.array_order.len() ==> self.arrays[#[trigger] self.array_order[i]].encodable()
    }

    /// What `RawDmapRecord::to_bytes` asks of a record: every listed name has
    /// its entry, every listed array can be written, and the size fits the
    /// four-byte field.
    pub open spec fn encodable(self) -> bool {
        &&& self.writable()
        &&& self.body().len() + HEADER_BYTES <= i32::MAX
    }
}

/// The bytes of a run of records, one after the other.
pub open spec fn records_bytes(records: Seq<Record>) -> Seq<u8>
    decreases records.len(),
{
    if records.len() == 0 {
        Seq::empty()
    } else {
        records_bytes(records.drop_last()) + records.last().bytes()
    }
}

/// What the wire carries of a run of records.
pub open spec fn listed_records(records: Seq<Record>) -> Seq<Record> {
    records.map_values(|r: Record| r.listed())
}

} // verus!
