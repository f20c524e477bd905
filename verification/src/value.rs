//! The typed values of the wire format: their tags, widths and bytes.

use crate::bytes::le_bytes;
use crate::error::{DmapError, Fault};
use crate::trusted::{
    bytes_of_i16, bytes_of_i32, bytes_of_i64, bytes_of_i8, bytes_of_u16, bytes_of_u32, bytes_of_u64,
    bytes_of_u8,
};
use vstd::prelude::*;
use vstd::std_specs::cmp::PartialEqSpecImpl;
use vstd::utf8::encode_utf8;

verus! {

/// The mathematical model of a typed value. A floating-point number is held
/// as its IEEE 754 bit pattern, which is what travels on the wire.
pub enum TypedValue {
    /// The marker of a record embedded in place of a value.
    Nested,
    Int8(i8),
    Int16(i16),
    Int32(i32),
    Float32(u32),
    Float64(u64),
    Text(Seq<char>),
    Int64(i64),
    UInt8(u8),
    UInt16(u16),
    UInt32(u32),
    UInt64(u64),
}

/// A text without the character of code zero: the only texts that the
/// zero-terminated form of the wire can carry.
pub open spec fn wire_safe(text: Seq<char>) -> bool {
    forall|i: int| 0 <= i < text.len() ==> text[i] as u32 != 0
}

/// Whether `key` is one of the twelve type tags.
pub open spec fn is_tag(key: i8) -> bool {
    key == 0 || key == 1 || key == 2 || key == 3 || key == 4 || key == 8 || key == 9 || key == 10
        || key == 16 || key == 17 || key == 18 || key == 19
}

/// The number of bytes of a value with tag `key`; zero for an embedded
/// record and for text, whose extent the data decide.
pub open spec fn tag_width(key: i8) -> nat {
    if key == 1 || key == 16 {
        1
    } else if key == 2 || key == 17 {
        2
    } else if key == 3 || key == 4 || key == 18 {
        4
    } else if key == 8 || key == 10 || key == 19 {
        8
    } else {
        0
    }
}

/// The value that stands for the shape with tag `key`: zero, or the empty
/// text.
pub open spec fn shape_of(key: i8) -> TypedValue {
    if key == 1 {
        TypedValue::Int8(0)
    } else if key == 2 {
        TypedValue::Int16(0)
    } else if key == 3 {
        TypedValue::Int32(0)
    } else if key == 4 {
        TypedValue::Float32(0)
    } else if key == 8 {
        TypedValue::Float64(0)
    } else if key == 9 {
        TypedValue::Text(Seq::empty())
    } else if key == 10 {
        TypedValue::Int64(0)
    } else if key == 16 {
        TypedValue::UInt8(0)
    } else if key == 17 {
        TypedValue::UInt16(0)
    } else if key == 18 {
        TypedValue::UInt32(0)
    } else if key == 19 {
        TypedValue::UInt64(0)
    } else {
        TypedValue::Nested
    }
}

impl TypedValue {
    /// The one-byte tag that names the type of a value on the wire.
    pub open spec fn tag(self) -> i8 {
        match self {
            TypedValue::Nested => 0,
            TypedValue::Int8(_) => 1,
            TypedValue::Int16(_) => 2,
            TypedValue::Int32(_) => 3,
            TypedValue::Float32(_) => 4,
            TypedValue::Float64(_) => 8,
            TypedValue::Text(_) => 9,
            TypedValue::Int64(_) => 10,
            TypedValue::UInt8(_) => 16,
            TypedValue::UInt16(_) => 17,
            TypedValue::UInt32(_) => 18,
            TypedValue::UInt64(_) => 19,
        }
    }

    /// Whether the wire can carry the value and give it back: it is no marker
    /// of an embedded record, whose bytes the encoder does not write, and if
    /// it is a text, the text is wire-safe.
    pub open spec fn portable(self) -> bool {
        &&& !(self is Nested)
        &&& self matches TypedValue::Text(text) ==> wire_safe(text)
    }

    /// The bytes of a value on the wire: a number in little-endian order, a
    /// text as UTF-8 closed by a zero byte, nothing for the marker of an
    /// embedded record.
    pub open spec fn bytes(self) -> Seq<u8> {
        match self {
            TypedValue::Nested => Seq::empty(),
            TypedValue::Int8(x) => le_bytes(x as int, 1),
            TypedValue::Int16(x) => le_bytes(x as int, 2),
            TypedValue::Int32(x) => le_bytes(x as int, 4),
            TypedValue::Float32(x) => le_bytes(x as int, 4),
            TypedValue::Float64(x) => le_bytes(x as int, 8),
            TypedValue::Text(s) => encode_utf8(s) + seq![0u8],
            TypedValue::Int64(x) => le_bytes(x as int, 8),
            TypedValue::UInt8(x) => le_bytes(x as int, 1),
            TypedValue::UInt16(x) => le_bytes(x as int, 2),
            TypedValue::UInt32(x) => le_bytes(x as int, 4),
            TypedValue::UInt64(x) => le_bytes(x as int, 8),
        }
    }
}

/// A typed value.
#[derive(Debug, Clone)]
pub enum DmapType {
    /// The marker of a record embedded in place of a value. The decoder reads
    /// the embedded record for its extent and checks it, and keeps the marker
    /// alone: what the embedded record holds is dropped. The encoder writes
    /// no bytes for the marker.
    DMAP,
    CHAR(i8),
    SHORT(i16),
    INT(i32),
    /// A single-precision number, held as its IEEE 754 bit pattern.
    FLOAT(u32),
    /// A double-precision number, held as its IEEE 754 bit pattern.
    DOUBLE(u64),
    /// A text. On the wire a zero byte closes it, so a text that holds the
    /// character of code zero is read back cut short.
    STRING(String),
    LONG(i64),
    UCHAR(u8),
    USHORT(u16),
    UINT(u32),
    ULONG(u64),
}

impl View for DmapType {
    type V = TypedValue;

    open spec fn view(&self) -> TypedValue {
        match self {
            DmapType::DMAP => TypedValue::Nested,
            DmapType::CHAR(x) => TypedValue::Int8(*x),
            DmapType::SHORT(x) => TypedValue::Int16(*x),
            DmapType::INT(x) => TypedValue::Int32(*x),
            DmapType::FLOAT(x) => TypedValue::Float32(*x),
            DmapType::DOUBLE(x) => TypedValue::Float64(*x),
            DmapType::STRING(s) => TypedValue::Text(s@),
            DmapType::LONG(x) => TypedValue::Int64(*x),
            DmapType::UCHAR(x) => TypedValue::UInt8(*x),
            DmapType::USHORT(x) => TypedValue::UInt16(*x),
            DmapType::UINT(x) => TypedValue::UInt32(*x),
            DmapType::ULONG(x) => TypedValue::UInt64(*x),
        }
    }
}

impl DmapType {
    /// The twelve type tags, in rising order.
    pub fn all_keys() -> (keys: Vec<i8>)
        ensures
            keys@ == seq![0i8, 1, 2, 3, 4, 8, 9, 10, 16, 17, 18, 19],
            forall|key: i8| keys@.contains(key) <==> is_tag(key),
    {
        let keys = vec![0i8, 1, 2, 3, 4, 8, 9, 10, 16, 17, 18, 19];
        proof {
            assert forall|key: i8| is_tag(key) implies keys@.contains(key) by {
                let i = choose|i: int| 0 <= i < 12 && keys@[i] == key;
                assert(keys@[i] == key);
            }
        }
        keys
    }

    /// Whether `key` is one of the type tags.
    pub fn is_key(key: i8) -> (found: bool)
        ensures
            found == is_tag(key),
    {
        let keys = DmapType::all_keys();
        let mut i: usize = 0;
        while i < keys.len()
            invariant
                i <= keys@.len(),
                forall|j: int| 0 <= j < i ==> keys@[j] != key,
                keys@.contains(key) <==> is_tag(key),
            decreases keys@.len() - i,
        {
            if keys[i] == key {
                assert(keys@.contains(key));
                return true;
            }
            i += 1;
        }
        assert(!keys@.contains(key));
        false
    }

    /// Gets the number of bytes needed to represent the data.
    pub fn get_num_bytes(&self) -> (n: u64)
        ensures
            n == tag_width(self@.tag()),
    {
        match self {
            DmapType::CHAR(_) => 1,
            DmapType::SHORT(_) => 2,
            DmapType::INT(_) => 4,
            DmapType::FLOAT(_) => 4,
            DmapType::DOUBLE(_) => 8,
            DmapType::LONG(_) => 8,
            DmapType::UCHAR(_) => 1,
            DmapType::USHORT(_) => 2,
            DmapType::UINT(_) => 4,
            DmapType::ULONG(_) => 8,
            _ => 0,
        }
    }

    /// Gets the data type from a numeric key.
    pub fn get_type_from_key(key: i8) -> (r: Result<DmapType, DmapError>)
        ensures
            r is Ok <==> is_tag(key),
            r matches Ok(t) ==> t@ == shape_of(key),
            r matches Err(e) ==> e == DmapError::BadVal(Fault::InvalidKey, DmapType::CHAR(key)),
    {
        match key {
            0 => Ok(DmapType::DMAP),
            1 => Ok(DmapType::CHAR(0)),
            2 => Ok(DmapType::SHORT(0)),
            3 => Ok(DmapType::INT(0)),
            4 => Ok(DmapType::FLOAT(0)),
            8 => Ok(DmapType::DOUBLE(0)),
            9 => Ok(DmapType::STRING(String::new())),
            10 => Ok(DmapType::LONG(0)),
            16 => Ok(DmapType::UCHAR(0)),
            17 => Ok(DmapType::USHORT(0)),
            18 => Ok(DmapType::UINT(0)),
            19 => Ok(DmapType::ULONG(0)),
            _ => Err(DmapError::BadVal(Fault::InvalidKey, DmapType::CHAR(key))),
        }
    }

    /// Gets the numeric key for the data type.
    pub fn get_key(&self) -> (key: i8)
        ensures
            key == self@.tag(),
    {
        match self {
            DmapType::DMAP => 0,
            DmapType::CHAR(_) => 1,
            DmapType::SHORT(_) => 2,
            DmapType::INT(_) => 3,
            DmapType::FLOAT(_) => 4,
            DmapType::DOUBLE(_) => 8,
            DmapType::STRING(_) => 9,
            DmapType::LONG(_) => 10,
            DmapType::UCHAR(_) => 16,
            DmapType::USHORT(_) => 17,
            DmapType::UINT(_) => 18,
            DmapType::ULONG(_) => 19,
        }
    }

    /// Converts into raw bytes
    pub fn to_bytes(&self) -> (out: Vec<u8>)
        ensures
            out@ == self@.bytes(),
    {
        match self {
            DmapType::DMAP => Vec::new(),
            DmapType::CHAR(x) => bytes_of_i8(*x),
            DmapType::UCHAR(x) => bytes_of_u8(*x),
            DmapType::SHORT(x) => bytes_of_i16(*x),
            DmapType::USHORT(x) => bytes_of_u16(*x),
            DmapType::INT(x) => bytes_of_i32(*x),
            DmapType::UINT(x) => bytes_of_u32(*x),
            DmapType::LONG(x) => bytes_of_i64(*x),
            DmapType::ULONG(x) => bytes_of_u64(*x),
            DmapType::FLOAT(x) => bytes_of_u32(*x),
            DmapType::DOUBLE(x) => bytes_of_u64(*x),
            DmapType::STRING(x) => {
                let mut bytes: Vec<u8> = Vec::new();
                bytes.extend_from_slice(x.as_str().as_bytes());
                bytes.push(0);
                bytes
            },
        }
    }
}

impl PartialEq for DmapType {
    /// Two values are equal where they are of one type and hold the same:
    /// for a floating-point number, the same bit pattern.
    fn eq(&self, other: &Self) -> (equal: bool) {
        match (self, other) {
            (DmapType::DMAP, DmapType::DMAP) => true,
            (DmapType::CHAR(a), DmapType::CHAR(b)) => *a == *b,
            (DmapType::SHORT(a), DmapType::SHORT(b)) => *a == *b,
            (DmapType::INT(a), DmapType::INT(b)) => *a == *b,
            (DmapType::FLOAT(a), DmapType::FLOAT(b)) => *a == *b,
            (DmapType::DOUBLE(a), DmapType::DOUBLE(b)) => *a == *b,
            (DmapType::STRING(a), DmapType::STRING(b)) => *a == *b,
            (DmapType::LONG(a), DmapType::LONG(b)) => *a == *b,
            (DmapType::UCHAR(a), DmapType::UCHAR(b)) => *a == *b,
            (DmapType::USHORT(a), DmapType::USHORT(b)) => *a == *b,
            (DmapType::UINT(a), DmapType::UINT(b)) => *a == *b,
            (DmapType::ULONG(a), DmapType::ULONG(b)) => *a == *b,
            _ => false,
        }
    }
}

impl PartialEqSpecImpl for DmapType {
    open spec fn obeys_eq_spec() -> bool {
        true
    }

    open spec fn eq_spec(&self, other: &Self) -> bool {
        self@ == other@
    }
}

} // verus!
