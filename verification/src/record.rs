//! Scalars, arrays and records as they are held in memory, their equality and
//! their encoders.

use crate::model::{
    dimension_bytes, records_bytes, value_bytes, ArrayEntry, HEADER_BYTES, RECORD_CODE, Record,
    ScalarEntry,
};
use crate::names::NameMap;
use crate::value::{DmapType, TypedValue};
use vstd::prelude::*;
use vstd::std_specs::cmp::PartialEqSpecImpl;

verus! {

/// The models of a run of values.
pub open spec fn values_of(data: Seq<DmapType>) -> Seq<TypedValue> {
    data.map_values(|d: DmapType| d@)
}

/// The models of the scalars of a map.
pub open spec fn scalar_entries(scalars: Map<Seq<char>, RawDmapScalar>) -> Map<
    Seq<char>,
    ScalarEntry,
> {
    scalars.map_values(|s: RawDmapScalar| s@)
}

/// The models of the arrays of a map.
pub open spec fn array_entries(arrays: Map<Seq<char>, RawDmapArray>) -> Map<Seq<char>, ArrayEntry> {
    arrays.map_values(|a: RawDmapArray| a@)
}

/// The models of a run of records.
pub open spec fn records_of(records: Seq<RawDmapRecord>) -> Seq<Record> {
    records.map_values(|r: RawDmapRecord| r@)
}

/// A scalar: one typed value.
#[derive(Debug, Clone)]
pub struct RawDmapScalar {
    pub data: DmapType,
}

impl View for RawDmapScalar {
    type V = ScalarEntry;

    open spec fn view(&self) -> ScalarEntry {
        ScalarEntry { value: self.data@ }
    }
}

impl RawDmapScalar {
    /// The scalar that holds `data`.
    pub fn new(data: DmapType) -> (scalar: RawDmapScalar)
        ensures
            scalar.data == data,
    {
        RawDmapScalar { data }
    }

    /// Converts into raw bytes
    pub fn to_bytes(&self) -> (out: Vec<u8>)
        ensures
            out@ == self@.bytes(),
    {
        let mut bytes: Vec<u8> = Vec::new();
        let mut tag = DmapType::CHAR(self.data.get_key()).to_bytes();
        bytes.append(&mut tag);
        let mut value = self.data.to_bytes();
        bytes.append(&mut value);
        bytes
    }
}

impl PartialEq for RawDmapScalar {
    /// Two scalars are equal where their values are.
    fn eq(&self, other: &Self) -> (equal: bool) {
        self.data == other.data
    }
}

impl PartialEqSpecImpl for RawDmapScalar {
    open spec fn obeys_eq_spec() -> bool {
        true
    }

    open spec fn eq_spec(&self, other: &Self) -> bool {
        self@ == other@
    }
}

/// An array: its dimensions and its elements, flattened in row-major order.
#[derive(Debug, Clone)]
pub struct RawDmapArray {
    pub dimensions: Vec<i32>,
    pub data: Vec<DmapType>,
}

impl View for RawDmapArray {
    type V = ArrayEntry;

    open spec fn view(&self) -> ArrayEntry {
        ArrayEntry {
            dimensions: self.dimensions@,
            elements: values_of(self.data@),
        }
    }
}

impl RawDmapArray {
    /// The array of the given dimensions and elements.
    pub fn new(dimensions: Vec<i32>, data: Vec<DmapType>) -> (array: RawDmapArray)
        ensures
            array.dimensions == dimensions,
            array.data == data,
    {
        RawDmapArray { dimensions, data }
    }

    /// Whether the array can be written: it has a first element to take the
    /// tag from, and its dimensions are no more than the four-byte field can
    /// count.
    pub fn can_encode(&self) -> (able: bool)
        ensures
            able == self@.encodable(),
    {
        self.data.len() > 0 && self.dimensions.len() <= 0x7fff_ffff
    }

    /// Converts into raw bytes
    pub fn to_bytes(&self) -> (out: Vec<u8>)
        requires
            self@.encodable(),
        ensures
            out@ == self@.bytes(),
    {
        let ghost model = self@;
        let mut bytes: Vec<u8> = Vec::new();
        let mut tag = DmapType::CHAR(self.data[0].get_key()).to_bytes();
        bytes.append(&mut tag);
        let mut count = DmapType::INT(self.dimensions.len() as i32).to_bytes();
        bytes.append(&mut count);
        let ghost head = bytes@;
        let mut i: usize = 0;
        while i < self.dimensions.len()
            invariant
                i <= self.dimensions@.len(),
                bytes@ == head + dimension_bytes(self.dimensions@.take(i as int)),
            decreases self.dimensions@.len() - i,
        {
            let mut dim = DmapType::INT(self.dimensions[i]).to_bytes();
            bytes.append(&mut dim);
            proof {
                let next = self.dimensions@.take(i + 1);
                assert(next.drop_last() =~= self.dimensions@.take(i as int));
                assert(bytes@ =~= head + dimension_bytes(next));
            }
            i += 1;
        }
        assert(self.dimensions@.take(i as int) =~= self.dimensions@);
        let ghost head = bytes@;
        let mut i: usize = 0;
        while i < self.data.len()
            invariant
                i <= self.data@.len(),
                model == self@,
                bytes@ == head + value_bytes(model.elements.take(i as int)),
            decreases self.data@.len() - i,
        {
            let mut val = self.data[i].to_bytes();
            bytes.append(&mut val);
            proof {
                let next = model.elements.take(i + 1);
                assert(next.drop_last() =~= model.elements.take(i as int));
                assert(bytes@ =~= head + value_bytes(next));
            }
            i += 1;
        }
        assert(model.elements.take(i as int) =~= model.elements);
        assert(bytes@ =~= model.bytes());
        bytes
    }
}

impl PartialEq for RawDmapArray {
    /// Two arrays are equal where their dimensions and their elements are
    /// the same as far as both have them.
    fn eq(&self, other: &Self) -> (equal: bool) {
        let mut equal = true;
        let mut i: usize = 0;
        while i < self.dimensions.len() && i < other.dimensions.len()
            invariant
                i <= self.dimensions@.len(),
                i <= other.dimensions@.len(),
                equal <==> forall|j: int| 0 <= j < i ==> self.dimensions@[j] == other.dimensions@[j],
            decreases self.dimensions@.len() - i,
        {
            equal = equal && self.dimensions[i] == other.dimensions[i];
            i += 1;
        }
        let ghost dimensions_equal = equal;
        assert(dimensions_equal <==> forall|j: int|
            0 <= j < self.dimensions@.len() && j < other.dimensions@.len() ==> self.dimensions@[j]
                == other.dimensions@[j]);
        let mut i: usize = 0;
        while i < self.data.len() && i < other.data.len()
            invariant
                i <= self.data@.len(),
                i <= other.data@.len(),
                dimensions_equal <==> forall|j: int|
                    0 <= j < self.dimensions@.len() && j < other.dimensions@.len()
                        ==> self.dimensions@[j] == other.dimensions@[j],
                equal <==> dimensions_equal && forall|j: int|
                    0 <= j < i ==> self.data@[j]@ == other.data@[j]@,
            decreases self.data@.len() - i,
        {
            equal = equal && self.data[i] == other.data[i];
            i += 1;
        }
        proof {
            let a = self@;
            let b = other@;
            if equal {
                assert forall|j: int|
                    0 <= j < a.elements.len() && j < b.elements.len() implies a.elements[j]
                    == b.elements[j] by {
                    assert(self.data@[j]@ == other.data@[j]@);
                }
            } else if dimensions_equal {
                let j = choose|j: int| 0 <= j < i && self.data@[j]@ != other.data@[j]@;
                assert(a.elements[j] != b.elements[j]);
            } else {
                let j = choose|j: int|
                    0 <= j < self.dimensions@.len() && j < other.dimensions@.len()
                        && self.dimensions@[j] != other.dimensions@[j];
                assert(a.dimensions[j] != b.dimensions[j]);
            }
        }
        equal
    }
}

impl PartialEqSpecImpl for RawDmapArray {
    open spec fn obeys_eq_spec() -> bool {
        true
    }

    open spec fn eq_spec(&self, other: &Self) -> bool {
        self@.agrees(other@)
    }
}

/// An entry of a record of either sort.
#[derive(Debug)]
pub enum DmapData {
    Scalar(RawDmapScalar),
    Array(RawDmapArray),
}

/// A record: named scalars and named arrays, with the order in which the
/// names stand on the wire.
#[derive(Debug, Clone)]
pub struct RawDmapRecord {
    pub num_scalars: i32,
    pub num_arrays: i32,
    pub scalar_list: Vec<String>,
    pub array_list: Vec<String>,
    pub scalars: NameMap<RawDmapScalar>,
    pub arrays: NameMap<RawDmapArray>,
}

/// The names of a list of strings.
pub open spec fn names_of(list: Seq<String>) -> Seq<Seq<char>> {
    list.map_values(|name: String| name@)
}

impl View for RawDmapRecord {
    type V = Record;

    open spec fn view(&self) -> Record {
        Record {
            scalar_count: self.num_scalars,
            array_count: self.num_arrays,
            scalar_order: names_of(self.scalar_list@),
            array_order: names_of(self.array_list@),
            scalars: scalar_entries(self.scalars@),
            arrays: array_entries(self.arrays@),
        }
    }
}

impl PartialEq for RawDmapRecord {
    /// Two records are equal where their counts are the same and, as far as
    /// both list names, they list the same, with equal entries under each.
    fn eq(&self, other: &Self) -> (equal: bool) {
        let ghost a = self@;
        let ghost b = other@;
        if !(self.num_scalars == other.num_scalars && self.num_arrays == other.num_arrays) {
            return false;
        }
        let mut i: usize = 0;
        while i < self.scalar_list.len() && i < other.scalar_list.len()
            invariant
                a == self@,
                b == other@,
                i <= self.scalar_list@.len(),
                i <= other.scalar_list@.len(),
                forall|j: int|
                    0 <= j < i ==> a.scalar_order[j] == b.scalar_order[j] && a.same_scalar(
                        b,
                        #[trigger] a.scalar_order[j],
                    ),
            decreases self.scalar_list@.len() - i,
        {
            let s1 = &self.scalar_list[i];
            let s2 = &other.scalar_list[i];
            assert(a.scalar_order[i as int] == s1@ && b.scalar_order[i as int] == s2@);
            if !(*s1 == *s2) {
                return false;
            }
            let same = match (self.scalars.get(s1), other.scalars.get(s2)) {
                (Some(scal1), Some(scal2)) => *scal1 == *scal2,
                (None, None) => true,
                _ => false,
            };
            if !same {
                assert(!a.same_scalar(b, a.scalar_order[i as int]));
                return false;
            }
            i += 1;
        }
        let mut i: usize = 0;
        while i < self.array_list.len() && i < other.array_list.len()
            invariant
                a == self@,
                b == other@,
                i <= self.array_list@.len(),
                i <= other.array_list@.len(),
                forall|j: int|
                    0 <= j < i ==> a.array_order[j] == b.array_order[j] && a.same_array(
                        b,
                        #[trigger] a.array_order[j],
                    ),
            decreases self.array_list@.len() - i,
        {
            let a1 = &self.array_list[i];
            let a2 = &other.array_list[i];
            assert(a.array_order[i as int] == a1@ && b.array_order[i as int] == a2@);
            if !(*a1 == *a2) {
                return false;
            }
            let same = match (self.arrays.get(a1), other.arrays.get(a2)) {
                (Some(arr1), Some(arr2)) => *arr1 == *arr2,
                (None, None) => true,
                _ => false,
            };
            if !same {
                assert(!a.same_array(b, a.array_order[i as int]));
                return false;
            }
            i += 1;
        }
        true
    }
}

impl PartialEqSpecImpl for RawDmapRecord {
    open spec fn obeys_eq_spec() -> bool {
        true
    }

    open spec fn eq_spec(&self, other: &Self) -> bool {
        self@.agrees(other@)
    }
}

impl RawDmapRecord {
    /// Whether every listed name has its entry and every listed array can be
    /// written.
    pub fn can_write(&self) -> (able: bool)
        ensures
            able == self@.writable(),
    {
        let ghost model = self@;
        let mut i: usize = 0;
        while i < self.scalar_list.len()
            invariant
                i <= self.scalar_list@.len(),
                model == self@,
                forall|j: int| 0 <= j < i ==> model.scalars.contains_key(model.scalar_order[j]),
            decreases self.scalar_list@.len() - i,
        {
            assert(model.scalar_order[i as int] == self.scalar_list@[i as int]@);
            if !self.scalars.contains_key(&self.scalar_list[i]) {
                return false;
            }
            i += 1;
        }
        let mut i: usize = 0;
        while i < self.array_list.len()
            invariant
                i <= self.array_list@.len(),
                model == self@,
                forall|j: int|
                    0 <= j < self.scalar_list@.len() ==> model.scalars.contains_key(
                        model.scalar_order[j],
                    ),
                forall|j: int|
                    0 <= j < i ==> model.arrays.contains_key(model.array_order[j])
                        && model.arrays[model.array_order[j]].encodable(),
            decreases self.array_list@.len() - i,
        {
            assert(model.array_order[i as int] == self.array_list@[i as int]@);
            let able = match self.arrays.get(&self.array_list[i]) {
                Some(array) => array.can_encode(),
                None => false,
            };
            if !able {
                return false;
            }
            i += 1;
        }
        true
    }

    /// The bytes of all that follows the header.
    fn body_bytes(&self) -> (out: Vec<u8>)
        requires
            self@.writable(),
        ensures
            out@ == self@.body(),
    {
        let ghost model = self@;
        let mut data_bytes: Vec<u8> = Vec::new();
        let mut i: usize = 0;
        while i < self.scalar_list.len()
            invariant
                i <= self.scalar_list@.len(),
                model == self@,
                model.complete(),
                data_bytes@ == model.scalar_bytes(i as nat),
            decreases self.scalar_list@.len() - i,
        {
            let scalar = &self.scalar_list[i];
            assert(model.scalar_order[i as int] == scalar@);
            data_bytes.extend_from_slice(scalar.as_str().as_bytes());
            data_bytes.push(0);  // null-terminate string
            let entry = self.scalars.get(scalar);
            assert(entry is Some);
            let mut entry_bytes = entry.unwrap().to_bytes();
            data_bytes.append(&mut entry_bytes);
            proof {
                assert(data_bytes@ =~= model.scalar_bytes((i + 1) as nat));
            }
            i += 1;
        }
        let ghost scalars_end = data_bytes@;
        let mut i: usize = 0;
        while i < self.array_list.len()
            invariant
                i <= self.array_list@.len(),
                model == self@,
                model.writable(),
                data_bytes@ == scalars_end + model.array_bytes(i as nat),
            decreases self.array_list@.len() - i,
        {
            let array = &self.array_list[i];
            assert(model.array_order[i as int] == array@);
            data_bytes.extend_from_slice(array.as_str().as_bytes());
            data_bytes.push(0);  // null-terminate string
            let entry = self.arrays.get(array);
            assert(entry is Some);
            let mut entry_bytes = entry.unwrap().to_bytes();
            data_bytes.append(&mut entry_bytes);
            proof {
                assert(data_bytes@ =~= scalars_end + model.array_bytes((i + 1) as nat));
            }
            i += 1;
        }
        data_bytes
    }

    /// The header, then the bytes of all that follows it.
    fn framed(&self, data_bytes: Vec<u8>) -> (out: Vec<u8>)
        requires
            data_bytes@ == self@.body(),
            data_bytes@.len() + HEADER_BYTES <= i32::MAX,
        ensures
            out@ == self@.bytes(),
    {
        let mut data_bytes = data_bytes;
        let mut container: Vec<u8> = Vec::new();
        let code = RECORD_CODE;
        let mut field = DmapType::INT(code).to_bytes();
        container.append(&mut field);
        // +16 for code, length, num_scalars, num_arrays
        let mut field = DmapType::INT(data_bytes.len() as i32 + 16).to_bytes();
        container.append(&mut field);
        let mut field = DmapType::INT(self.num_scalars).to_bytes();
        container.append(&mut field);
        let mut field = DmapType::INT(self.num_arrays).to_bytes();
        container.append(&mut field);
        container.append(&mut data_bytes);
        assert(container@ =~= self@.bytes());
        container
    }

    /// Converts into raw bytes
    pub fn to_bytes(&self) -> (out: Vec<u8>)
        requires
            self@.encodable(),
        ensures
            out@ == self@.bytes(),
    {
        let data_bytes = self.body_bytes();
        self.framed(data_bytes)
    }

    /// Converts into raw bytes where the record can be written and its size
    /// fits the four-byte field, and hands back nothing where not.
    pub fn try_to_bytes(&self) -> (r: Option<Vec<u8>>)
        ensures
            r is Some <==> self@.encodable(),
            r matches Some(out) ==> out@ == self@.bytes(),
    {
        if !self.can_write() {
            return None;
        }
        let data_bytes = self.body_bytes();
        if data_bytes.len() > 0x7fff_ffff - HEADER_BYTES {
            return None;
        }
        Some(self.framed(data_bytes))
    }
}

/// Converts dmap_records into raw bytes, one record after the other.
pub fn write_records(dmap_records: &Vec<RawDmapRecord>) -> (out: Vec<u8>)
    requires
        forall|i: int| 0 <= i < dmap_records@.len() ==> (#[trigger] dmap_records@[i])@.encodable(),
    ensures
        out@ == records_bytes(records_of(dmap_records@)),
{
    let ghost models = records_of(dmap_records@);
    let mut stream: Vec<u8> = Vec::new();
    let mut i: usize = 0;
    while i < dmap_records.len()
        invariant
            i <= dmap_records@.len(),
            models == records_of(dmap_records@),
            forall|j: int|
                0 <= j < dmap_records@.len() ==> (#[trigger] dmap_records@[j])@.encodable(),
            stream@ == records_bytes(models.take(i as int)),
        decreases dmap_records@.len() - i,
    {
        let mut bytes = dmap_records[i].to_bytes();
        stream.append(&mut bytes);
        proof {
            let next = models.take(i + 1);
            assert(next.drop_last() =~= models.take(i as int));
            assert(next.last() == dmap_records@[i as int]@);
        }
        i += 1;
    }
    assert(models.take(i as int) =~= models);
    stream
}

/// Converts dmap_records into raw bytes, one record after the other, where
/// each of them can be written and its size fits the four-byte field, and
/// hands back nothing where not.
pub fn try_write_records(dmap_records: &Vec<RawDmapRecord>) -> (r: Option<Vec<u8>>)
    ensures
        r is Some <==> forall|i: int|
            0 <= i < dmap_records@.len() ==> (#[trigger] dmap_records@[i])@.encodable(),
        r matches Some(out) ==> out@ == records_bytes(records_of(dmap_records@)),
{
    let ghost models = records_of(dmap_records@);
    let mut stream: Vec<u8> = Vec::new();
    let mut i: usize = 0;
    while i < dmap_records.len()
        invariant
            i <= dmap_records@.len(),
            models == records_of(dmap_records@),
            forall|j: int| 0 <= j < i ==> (#[trigger] dmap_records@[j])@.encodable(),
            stream@ == records_bytes(models.take(i as int)),
        decreases dmap_records@.len() - i,
    {
        let mut bytes = match dmap_records[i].try_to_bytes() {
            Some(bytes) => bytes,
            None => {
                return None;
            },
        };
        stream.append(&mut bytes);
        proof {
            let next = models.take(i + 1);
            assert(next.drop_last() =~= models.take(i as int));
            assert(next.last() == dmap_records@[i as int]@);
        }
        i += 1;
    }
    assert(models.take(i as int) =~= models);
    Some(stream)
}

} // verus!
