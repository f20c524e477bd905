//! What the bytes of a buffer mean: the wire format as functions from a
//! buffer and a position to what stands there, or to the reason why nothing
//! does.

use crate::bytes::{le_signed, le_unsigned};
use crate::error::{DmapError, Fault};
use crate::model::{element_count, ArrayEntry, HEADER_BYTES, Record, ScalarEntry};
use crate::value::{is_tag, tag_width, DmapType, TypedValue};
use vstd::prelude::*;
use vstd::utf8::{decode_utf8, valid_utf8};

verus! {

/// The number of bytes from `pos` to the end of `buf`.
pub open spec fn remaining(buf: Seq<u8>, pos: int) -> nat {
    if pos <= buf.len() {
        (buf.len() - pos) as nat
    } else {
        0
    }
}

/// The `width` bytes of `buf` from `pos` on, where the buffer holds them.
pub open spec fn spec_window(buf: Seq<u8>, pos: int, width: nat) -> Result<Seq<u8>, DmapError> {
    if pos < 0 || pos > buf.len() {
        Err(DmapError::Message(Fault::CursorOutOfBuffer))
    } else if buf.len() - pos < width {
        Err(DmapError::Message(Fault::BufferTooShort))
    } else {
        Ok(buf.subrange(pos, pos + width))
    }
}

/// The four-byte signed integer at `pos`.
pub open spec fn spec_read_int(buf: Seq<u8>, pos: int) -> Result<i32, DmapError> {
    match spec_window(buf, pos, 4) {
        Err(e) => Err(e),
        Ok(w) => Ok(le_signed(w) as i32),
    }
}

/// The one-byte signed integer at `pos`.
pub open spec fn spec_read_char(buf: Seq<u8>, pos: int) -> Result<i8, DmapError> {
    match spec_window(buf, pos, 1) {
        Err(e) => Err(e),
        Ok(w) => Ok(le_signed(w) as i8),
    }
}

/// The index of the first zero byte of `buf` at or after `pos`, or the length
/// of `buf` where there is none.
pub open spec fn terminator(buf: Seq<u8>, pos: int) -> int
    decreases buf.len() - pos,
{
    if pos < 0 || pos >= buf.len() {
        buf.len() as int
    } else if buf[pos] == 0 {
        pos
    } else {
        terminator(buf, pos + 1)
    }
}

/// The text at `pos`, with the number of bytes it takes, terminator included.
pub open spec fn spec_read_text(buf: Seq<u8>, pos: int) -> Result<(Seq<char>, nat), DmapError> {
    let end = terminator(buf, pos);
    if pos < 0 || pos > buf.len() {
        Err(DmapError::Message(Fault::CursorOutOfBuffer))
    } else if end >= buf.len() {
        Err(DmapError::Message(Fault::UnterminatedString))
    } else if !valid_utf8(buf.subrange(pos, end)) {
        Err(DmapError::Message(Fault::InvalidString))
    } else {
        Ok((decode_utf8(buf.subrange(pos, end)), (end - pos + 1) as nat))
    }
}

/// Whether a value with tag `key` is a number of fixed width.
pub open spec fn is_number(key: i8) -> bool {
    is_tag(key) && key != 0 && key != 9
}

/// The number of type `key` that the bytes `w` spell.
pub open spec fn number_of(key: i8, w: Seq<u8>) -> TypedValue {
    if key == 1 {
        TypedValue::Int8(le_signed(w) as i8)
    } else if key == 2 {
        TypedValue::Int16(le_signed(w) as i16)
    } else if key == 3 {
        TypedValue::Int32(le_signed(w) as i32)
    } else if key == 4 {
        TypedValue::Float32(le_unsigned(w) as u32)
    } else if key == 8 {
        TypedValue::Float64(le_unsigned(w) as u64)
    } else if key == 10 {
        TypedValue::Int64(le_signed(w) as i64)
    } else if key == 16 {
        TypedValue::UInt8(le_unsigned(w) as u8)
    } else if key == 17 {
        TypedValue::UInt16(le_unsigned(w) as u16)
    } else if key == 18 {
        TypedValue::UInt32(le_unsigned(w) as u32)
    } else {
        TypedValue::UInt64(le_unsigned(w) as u64)
    }
}

/// The fields of a record's header.
pub struct Header {
    pub code: i32,
    pub size: i32,
    pub scalar_count: i32,
    pub array_count: i32,
}

/// The header at `pos`, where it passes the integrity checks: the size does
/// not exceed what is left of the buffer from the start of the record, it is
/// positive, so are both counts, and their sum does not exceed the size.
#[verifier::opaque]
pub open spec fn spec_read_header(buf: Seq<u8>, pos: int) -> Result<Header, DmapError> {
    match spec_read_int(buf, pos) {
        Err(e) => Err(e),
        Ok(code) => match spec_read_int(buf, pos + 4) {
            Err(e) => Err(e),
            Ok(size) => if size > buf.len() - pos {
                Err(DmapError::Message(Fault::RecordSizeExceedsBuffer))
            } else if size <= 0 {
                Err(DmapError::Message(Fault::RecordSizeNotPositive))
            } else {
                match spec_read_int(buf, pos + 8) {
                    Err(e) => Err(e),
                    Ok(scalar_count) => match spec_read_int(buf, pos + 12) {
                        Err(e) => Err(e),
                        Ok(array_count) => if scalar_count <= 0 {
                            Err(DmapError::Message(Fault::ScalarCountNotPositive))
                        } else if array_count <= 0 {
                            Err(DmapError::Message(Fault::ArrayCountNotPositive))
                        } else if scalar_count + array_count > size {
                            Err(DmapError::Message(Fault::ElementCountExceedsSize))
                        } else {
                            Ok(Header { code, size, scalar_count, array_count })
                        },
                    },
                }
            },
        },
    }
}

/// The map that a list of named entries builds when each is stored in turn: a
/// later entry takes the place of an earlier one of the same name.
pub open spec fn entries_map<E>(items: Seq<(Seq<char>, E)>) -> Map<Seq<char>, E>
    decreases items.len(),
{
    if items.len() == 0 {
        Map::empty()
    } else {
        entries_map(items.drop_last()).insert(items.last().0, items.last().1)
    }
}

/// The names of a list of named entries, in order.
pub open spec fn entry_names<E>(items: Seq<(Seq<char>, E)>) -> Seq<Seq<char>> {
    items.map_values(|item: (Seq<char>, E)| item.0)
}

/// The value of type `key` at `pos`, with the number of bytes it takes. For
/// the tag of an embedded record this is the marker, after a whole record
/// has been decoded at `pos`.
pub open spec fn spec_read_data(buf: Seq<u8>, pos: int, key: i8) -> Result<
    (TypedValue, nat),
    DmapError,
>
    decreases remaining(buf, pos), 1nat, 0nat,
{
    match spec_window(buf, pos, tag_width(key)) {
        Err(e) => Err(e),
        Ok(w) => if key == 9 {
            match spec_read_text(buf, pos) {
                Err(e) => Err(e),
                Ok((text, used)) => Ok((TypedValue::Text(text), used)),
            }
        } else if tag_width(key) > 0 {
            Ok((number_of(key, w), tag_width(key)))
        } else {
            match spec_parse_record(buf, pos) {
                Err(e) => Err(e),
                Ok((_, used)) => Ok((TypedValue::Nested, used)),
            }
        },
    }
}

/// The first `n` values of type `key` from `pos` on, with the number of bytes
/// they take.
pub open spec fn spec_read_values(buf: Seq<u8>, pos: int, n: nat, key: i8) -> Result<
    (Seq<TypedValue>, nat),
    DmapError,
>
    decreases remaining(buf, pos), 4nat, n,
{
    if n == 0 {
        Ok((Seq::empty(), 0))
    } else {
        match spec_read_values(buf, pos, (n - 1) as nat, key) {
            Err(e) => Err(e),
            Ok((values, used)) => match spec_read_data(buf, pos + used, key) {
                Err(e) => Err(e),
                Ok((value, more)) => Ok((values.push(value), used + more)),
            },
        }
    }
}

/// The scalar at `pos` with its name: a text, a tag of the table, and a value
/// of that type. A tag outside the table is refused with the tag.
pub open spec fn spec_parse_scalar(buf: Seq<u8>, pos: int) -> Result<
    ((Seq<char>, ScalarEntry), nat),
    DmapError,
>
    decreases remaining(buf, pos), 3nat, 0nat,
{
    match spec_read_text(buf, pos) {
        Err(e) => Err(e),
        Ok((name, n)) => match spec_read_char(buf, pos + n) {
            Err(e) => Err(e),
            Ok(key) => if !is_tag(key) {
                Err(DmapError::BadVal(Fault::ScalarTypeCorrupted, DmapType::CHAR(key)))
            } else {
                match spec_read_data(buf, pos + n + 1, key) {
                    Err(e) => Err(e),
                    Ok((value, used)) => Ok(((name, ScalarEntry { value }), n + 1 + used)),
                }
            },
        },
    }
}

/// The first `n` scalars from `pos` on, with the number of bytes they take.
pub open spec fn spec_parse_scalars(buf: Seq<u8>, pos: int, n: nat) -> Result<
    (Seq<(Seq<char>, ScalarEntry)>, nat),
    DmapError,
>
    decreases remaining(buf, pos), 4nat, n,
{
    if n == 0 {
        Ok((Seq::empty(), 0))
    } else {
        match spec_parse_scalars(buf, pos, (n - 1) as nat) {
            Err(e) => Err(e),
            Ok((items, used)) => match spec_parse_scalar(buf, pos + used) {
                Err(e) => Err(e),
                Ok((item, more)) => Ok((items.push(item), used + more)),
            },
        }
    }
}

/// The first `n` dimensions from `pos` on, each positive and at most
/// `record_size`.
pub open spec fn spec_read_dimensions(buf: Seq<u8>, pos: int, n: nat, record_size: i32) -> Result<
    Seq<i32>,
    DmapError,
>
    decreases n,
{
    if n == 0 {
        Ok(Seq::empty())
    } else {
        match spec_read_dimensions(buf, pos, (n - 1) as nat, record_size) {
            Err(e) => Err(e),
            Ok(dimensions) => match spec_read_int(buf, pos + 4 * (n - 1)) {
                Err(e) => Err(e),
                Ok(d) => if d <= 0 {
                    Err(DmapError::Message(Fault::DimensionNotPositive))
                } else if d > record_size {
                    Err(DmapError::Message(Fault::DimensionExceedsSize))
                } else {
                    Ok(dimensions.push(d))
                },
            },
        }
    }
}

/// The array at `pos` with its name, in a record of `record_size` bytes: a
/// text, a tag of the table, a number of dimensions, the dimensions, and as
/// many values of that type as the product of the dimensions. The number of
/// dimensions, each dimension, their product and the bytes that the elements
/// would take at their declared width may none exceed `record_size`. A tag
/// outside the table is refused with the tag.
pub open spec fn spec_parse_array(buf: Seq<u8>, pos: int, record_size: i32) -> Result<
    ((Seq<char>, ArrayEntry), nat),
    DmapError,
>
    decreases remaining(buf, pos), 3nat, 0nat,
{
    match spec_read_text(buf, pos) {
        Err(e) => Err(e),
        Ok((name, n)) => match spec_read_char(buf, pos + n) {
            Err(e) => Err(e),
            Ok(key) => if !is_tag(key) {
                Err(DmapError::BadVal(Fault::ArrayTypeCorrupted, DmapType::CHAR(key)))
            } else {
                match spec_read_int(buf, pos + n + 1) {
                    Err(e) => Err(e),
                    Ok(count) => if count > record_size {
                        Err(DmapError::Message(Fault::DimensionCountExceedsSize))
                    } else if count <= 0 {
                        Err(DmapError::Message(Fault::DimensionCountNotPositive))
                    } else {
                        match spec_read_dimensions(buf, pos + n + 5, count as nat, record_size) {
                            Err(e) => Err(e),
                            Ok(dimensions) => {
                                let total = element_count(dimensions);
                                let start = pos + n + 5 + 4 * count;
                                if total > record_size {
                                    Err(DmapError::Message(Fault::ElementsExceedSize))
                                } else if total * tag_width(key) > record_size {
                                    Err(DmapError::Message(Fault::ArrayExceedsSize))
                                } else {
                                    match spec_read_values(buf, start, total as nat, key) {
                                        Err(e) => Err(e),
                                        Ok((elements, used)) => Ok(
                                            (
                                                (name, ArrayEntry { dimensions, elements }),
                                                (n + 5 + 4 * count + used) as nat,
                                            ),
                                        ),
                                    }
                                }
                            },
                        }
                    },
                }
            },
        },
    }
}

/// The first `n` arrays from `pos` on, with the number of bytes they take.
pub open spec fn spec_parse_arrays(buf: Seq<u8>, pos: int, n: nat, record_size: i32) -> Result<
    (Seq<(Seq<char>, ArrayEntry)>, nat),
    DmapError,
>
    decreases remaining(buf, pos), 4nat, n,
{
    if n == 0 {
        Ok((Seq::empty(), 0))
    } else {
        match spec_parse_arrays(buf, pos, (n - 1) as nat, record_size) {
            Err(e) => Err(e),
            Ok((items, used)) => match spec_parse_array(buf, pos + used, record_size) {
                Err(e) => Err(e),
                Ok((item, more)) => Ok((items.push(item), used + more)),
            },
        }
    }
}

/// The record at `pos`, with the number of bytes it takes: a header that
/// passes its checks, as many scalars and then as many arrays as it
/// announces, and a size field equal to the bytes that all of this took.
#[verifier::opaque]
pub open spec fn spec_parse_record(buf: Seq<u8>, pos: int) -> Result<(Record, nat), DmapError>
    decreases remaining(buf, pos), 0nat, 0nat,
{
    match spec_read_header(buf, pos) {
        Err(e) => Err(e),
        Ok(header) => {
            proof {
                reveal(spec_read_header);
            }
            match spec_parse_scalars(buf, pos + HEADER_BYTES, header.scalar_count as nat) {
                Err(e) => Err(e),
                Ok((scalars, used)) => match spec_parse_arrays(
                    buf,
                    pos + HEADER_BYTES + used,
                    header.array_count as nat,
                    header.size,
                ) {
                    Err(e) => Err(e),
                    Ok((arrays, more)) => if HEADER_BYTES + used + more != header.size {
                        Err(DmapError::Message(Fault::RecordSizeMismatch))
                    } else {
                        Ok(
                            (
                                Record {
                                    scalar_count: header.scalar_count,
                                    array_count: header.array_count,
                                    scalar_order: entry_names(scalars),
                                    array_order: entry_names(arrays),
                                    scalars: entries_map(scalars),
                                    arrays: entries_map(arrays),
                                },
                                header.size as nat,
                            ),
                        )
                    },
                },
            }
        },
    }
}

/// The records that fill `buf` from `pos` to its end.
#[verifier::opaque]
pub open spec fn spec_read_records(buf: Seq<u8>, pos: int) -> Result<Seq<Record>, DmapError>
    decreases remaining(buf, pos),
{
    if pos < 0 || pos >= buf.len() {
        Ok(Seq::empty())
    } else {
        match spec_parse_record(buf, pos) {
            Err(e) => Err(e),
            Ok((record, used)) => {
                proof {
                    reveal(spec_parse_record);
                    reveal(spec_read_header);
                }
                match spec_read_records(buf, pos + used) {
                    Err(e) => Err(e),
                    Ok(rest) => Ok(seq![record] + rest),
                }
            },
        }
    }
}

/// What decoding has so far, followed by what decoding the rest gives.
pub open spec fn followed_by(done: Seq<Record>, rest: Result<Seq<Record>, DmapError>) -> Result<
    Seq<Record>,
    DmapError,
> {
    match rest {
        Err(e) => Err(e),
        Ok(more) => Ok(done + more),
    }
}

/// Once a value fails to decode, so does every longer run of values.
pub proof fn lemma_values_fail(buf: Seq<u8>, pos: int, i: nat, n: nat, key: i8)
    requires
        i <= n,
        spec_read_values(buf, pos, i, key) is Err,
    ensures
        spec_read_values(buf, pos, n, key) == spec_read_values(buf, pos, i, key),
    decreases n,
{
    if i < n {
        lemma_values_fail(buf, pos, i, (n - 1) as nat, key);
    }
}

/// Once a scalar fails to decode, so does every longer run of scalars.
pub proof fn lemma_scalars_fail(buf: Seq<u8>, pos: int, i: nat, n: nat)
    requires
        i <= n,
        spec_parse_scalars(buf, pos, i) is Err,
    ensures
        spec_parse_scalars(buf, pos, n) == spec_parse_scalars(buf, pos, i),
    decreases n,
{
    if i < n {
        lemma_scalars_fail(buf, pos, i, (n - 1) as nat);
    }
}

/// Once an array fails to decode, so does every longer run of arrays.
pub proof fn lemma_arrays_fail(buf: Seq<u8>, pos: int, i: nat, n: nat, record_size: i32)
    requires
        i <= n,
        spec_parse_arrays(buf, pos, i, record_size) is Err,
    ensures
        spec_parse_arrays(buf, pos, n, record_size) == spec_parse_arrays(buf, pos, i, record_size),
    decreases n,
{
    if i < n {
        lemma_arrays_fail(buf, pos, i, (n - 1) as nat, record_size);
    }
}

/// Once a dimension fails to decode, so does every longer run of dimensions.
pub proof fn lemma_dimensions_fail(buf: Seq<u8>, pos: int, i: nat, n: nat, record_size: i32)
    requires
        i <= n,
        spec_read_dimensions(buf, pos, i, record_size) is Err,
    ensures
        spec_read_dimensions(buf, pos, n, record_size) == spec_read_dimensions(
            buf,
            pos,
            i,
            record_size,
        ),
    decreases n,
{
    if i < n {
        lemma_dimensions_fail(buf, pos, i, (n - 1) as nat, record_size);
    }
}

/// At the end of the buffer no record is left to decode.
pub proof fn lemma_records_end(buf: Seq<u8>, pos: int)
    requires
        pos >= buf.len(),
    ensures
        spec_read_records(buf, pos) == Ok::<Seq<Record>, DmapError>(Seq::empty()),
{
    reveal(spec_read_records);
}

/// A record that fails to decode fails the run.
pub proof fn lemma_records_fail(buf: Seq<u8>, pos: int)
    requires
        0 <= pos < buf.len(),
        spec_parse_record(buf, pos) is Err,
    ensures
        spec_read_records(buf, pos) == Err::<Seq<Record>, DmapError>(
            spec_parse_record(buf, pos)->Err_0,
        ),
{
    reveal(spec_read_records);
}

/// A record that decodes is followed by what the rest of the buffer decodes
/// to.
pub proof fn lemma_records_step(buf: Seq<u8>, pos: int)
    requires
        0 <= pos < buf.len(),
        spec_parse_record(buf, pos) is Ok,
    ensures
        spec_read_records(buf, pos) == followed_by(
            seq![spec_parse_record(buf, pos)->Ok_0.0],
            spec_read_records(buf, pos + spec_parse_record(buf, pos)->Ok_0.1),
        ),
{
    reveal(spec_read_records);
}

/// One more record decoded at `pos` joins those decoded before it.
pub proof fn lemma_record_joins(buf: Seq<u8>, pos: int, done: Seq<Record>, record: Record, used: nat)
    requires
        0 <= pos < buf.len(),
        spec_parse_record(buf, pos) == Ok::<(Record, nat), DmapError>((record, used)),
    ensures
        followed_by(done, spec_read_records(buf, pos)) == followed_by(
            done.push(record),
            spec_read_records(buf, pos + used),
        ),
{
    reveal(spec_read_records);
    match spec_read_records(buf, pos + used) {
        Ok(more) => {
            assert(done.push(record) + more =~= done + (seq![record] + more));
        },
        Err(_) => {},
    }
}

} // verus!
