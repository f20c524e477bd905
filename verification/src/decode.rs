//! The decoder: a parser over a buffer and a position that is proved to
//! compute what the wire format says stands there.

use crate::bytes::{lemma_le_signed_inverts, lemma_le_unsigned_inverts};
use crate::error::{DmapError, Fault};
use crate::grammar::{
    entries_map, entry_names, followed_by, is_number, lemma_arrays_fail, lemma_dimensions_fail,
    lemma_record_joins, lemma_records_end, lemma_records_fail, lemma_scalars_fail,
    lemma_values_fail, number_of, remaining, spec_parse_array, spec_parse_arrays, spec_parse_record,
    spec_parse_scalar, spec_parse_scalars, spec_read_char, spec_read_data, spec_read_dimensions,
    spec_read_header, spec_read_int, spec_read_records, spec_read_text, spec_read_values,
    spec_window, terminator, Header,
};
use crate::model::{element_count, ArrayEntry, HEADER_BYTES, Record, ScalarEntry};
use crate::names::NameMap;
use crate::record::{
    array_entries, names_of, records_of, scalar_entries, values_of, RawDmapArray, RawDmapRecord,
    RawDmapScalar,
};
use crate::trusted::{
    from_bytes_i8, pod_read_i16, pod_read_i32, pod_read_i64, pod_read_u16, pod_read_u32,
    pod_read_u64, string_from_utf8,
};
use crate::value::{tag_width, DmapType, TypedValue};
use vstd::prelude::*;
use vstd::slice::{slice_subrange, slice_to_vec};

verus! {

/// The `width` bytes of `buffer` from `position` on.
fn window(buffer: &[u8], position: usize, width: usize) -> (r: Result<&[u8], DmapError>)
    requires
        width <= 8,
    ensures
        buffer@.len() <= usize::MAX,
        match r {
            Ok(w) => position + width <= buffer@.len() && spec_window(
                buffer@,
                position as int,
                width as nat,
            ) == Ok::<Seq<u8>, DmapError>(w@),
            Err(e) => spec_window(buffer@, position as int, width as nat) == Err::<
                Seq<u8>,
                DmapError,
            >(e),
        },
{
    if position > buffer.len() {
        return Err(DmapError::Message(Fault::CursorOutOfBuffer));
    }
    if buffer.len() - position < width {
        return Err(DmapError::Message(Fault::BufferTooShort));
    }
    Ok(slice_subrange(buffer, position, position + width))
}

/// Reads the four-byte signed integer at `position`.
fn read_int(buffer: &[u8], position: usize) -> (r: Result<i32, DmapError>)
    ensures
        r == spec_read_int(buffer@, position as int),
        r is Ok ==> position + 4 <= buffer@.len(),
        buffer@.len() <= usize::MAX,
{
    let w = window(buffer, position, 4)?;
    match pod_read_i32(w) {
        Ok(v) => {
            proof {
                lemma_le_signed_inverts(v as int, 4);
            }
            Ok(v)
        },
        Err(e) => Err(DmapError::CastError(Fault::InterpretInt, e)),
    }
}

/// Reads the one-byte signed integer at `position`.
fn read_char(buffer: &[u8], position: usize) -> (r: Result<i8, DmapError>)
    ensures
        r == spec_read_char(buffer@, position as int),
        r is Ok ==> position + 1 <= buffer@.len(),
        buffer@.len() <= usize::MAX,
{
    let w = window(buffer, position, 1)?;
    match from_bytes_i8(w) {
        Ok(v) => {
            proof {
                lemma_le_signed_inverts(v as int, 1);
            }
            Ok(v)
        },
        Err(e) => Err(DmapError::CastError(Fault::InterpretChar, e)),
    }
}

/// Reads the text at `position`; hands back the text and the position after
/// its terminator.
fn read_text(buffer: &[u8], position: usize) -> (r: Result<(String, usize), DmapError>)
    ensures
        buffer@.len() <= usize::MAX,
        match r {
            Ok((text, end)) => position < end <= buffer@.len() && spec_read_text(
                buffer@,
                position as int,
            ) == Ok::<(Seq<char>, nat), DmapError>((text@, (end - position) as nat)),
            Err(e) => spec_read_text(buffer@, position as int) == Err::<
                (Seq<char>, nat),
                DmapError,
            >(e),
        },
{
    if position > buffer.len() {
        return Err(DmapError::Message(Fault::CursorOutOfBuffer));
    }
    let mut end = position;
    while end < buffer.len() && buffer[end] != 0
        invariant
            position <= end <= buffer@.len(),
            terminator(buffer@, position as int) == terminator(buffer@, end as int),
        decreases buffer@.len() - end,
    {
        end += 1;
    }
    if end >= buffer.len() {
        return Err(DmapError::Message(Fault::UnterminatedString));
    }
    let data = slice_to_vec(slice_subrange(buffer, position, end));
    match string_from_utf8(data) {
        Some(text) => Ok((text, end + 1)),
        None => Err(DmapError::Message(Fault::InvalidString)),
    }
}

/// Reinterprets the bytes `data` as a number of the type of `data_type`.
fn read_number(data: &[u8], data_type: &DmapType) -> (r: Result<DmapType, DmapError>)
    requires
        is_number(data_type@.tag()),
        data@.len() == tag_width(data_type@.tag()),
    ensures
        r matches Ok(value) && value@ == number_of(data_type@.tag(), data@),
{
    match data_type {
        DmapType::UCHAR(_) => Ok(DmapType::UCHAR(data[0])),
        DmapType::CHAR(_) => match from_bytes_i8(data) {
            Ok(v) => {
                proof {
                    lemma_le_signed_inverts(v as int, 1);
                }
                Ok(DmapType::CHAR(v))
            },
            Err(e) => Err(DmapError::CastError(Fault::InterpretChar, e)),
        },
        DmapType::SHORT(_) => match pod_read_i16(data) {
            Ok(v) => {
                proof {
                    lemma_le_signed_inverts(v as int, 2);
                }
                Ok(DmapType::SHORT(v))
            },
            Err(e) => Err(DmapError::CastError(Fault::InterpretShort, e)),
        },
        DmapType::USHORT(_) => match pod_read_u16(data) {
            Ok(v) => {
                proof {
                    lemma_le_unsigned_inverts(v as int, 2);
                }
                Ok(DmapType::USHORT(v))
            },
            Err(e) => Err(DmapError::CastError(Fault::InterpretUshort, e)),
        },
        DmapType::INT(_) => match pod_read_i32(data) {
            Ok(v) => {
                proof {
                    lemma_le_signed_inverts(v as int, 4);
                }
                Ok(DmapType::INT(v))
            },
            Err(e) => Err(DmapError::CastError(Fault::InterpretInt, e)),
        },
        DmapType::UINT(_) => match pod_read_u32(data) {
            Ok(v) => {
                proof {
                    lemma_le_unsigned_inverts(v as int, 4);
                }
                Ok(DmapType::UINT(v))
            },
            Err(e) => Err(DmapError::CastError(Fault::InterpretUint, e)),
        },
        DmapType::LONG(_) => match pod_read_i64(data) {
            Ok(v) => {
                proof {
                    lemma_le_signed_inverts(v as int, 8);
                }
                Ok(DmapType::LONG(v))
            },
            Err(e) => Err(DmapError::CastError(Fault::InterpretLong, e)),
        },
        DmapType::ULONG(_) => match pod_read_u64(data) {
            Ok(v) => {
                proof {
                    lemma_le_unsigned_inverts(v as int, 8);
                }
                Ok(DmapType::ULONG(v))
            },
            Err(e) => Err(DmapError::CastError(Fault::InterpretUlong, e)),
        },
        DmapType::FLOAT(_) => match pod_read_u32(data) {
            Ok(v) => {
                proof {
                    lemma_le_unsigned_inverts(v as int, 4);
                }
                Ok(DmapType::FLOAT(v))
            },
            Err(e) => Err(DmapError::CastError(Fault::InterpretFloat, e)),
        },
        DmapType::DOUBLE(_) => match pod_read_u64(data) {
            Ok(v) => {
                proof {
                    lemma_le_unsigned_inverts(v as int, 8);
                }
                Ok(DmapType::DOUBLE(v))
            },
            Err(e) => Err(DmapError::CastError(Fault::InterpretDouble, e)),
        },
        DmapType::DMAP | DmapType::STRING(_) => unreached(),
    }
}

/// Reads the header of a record at `position` and checks it.
fn read_header(buffer: &[u8], position: usize) -> (r: Result<Header, DmapError>)
    ensures
        r == spec_read_header(buffer@, position as int),
        r matches Ok(header) ==> position + HEADER_BYTES <= buffer@.len() && 0 < header.size
            && position + header.size <= buffer@.len() && 0 < header.scalar_count && 0
            < header.array_count,
        buffer@.len() <= usize::MAX,
{
    proof {
        reveal(spec_read_header);
    }
    let code = read_int(buffer, position)?;
    let size = read_int(buffer, position + 4)?;

    // the size counts the record from its first byte, code and size included
    if size > 0 && size as usize > buffer.len() - position {
        return Err(DmapError::Message(Fault::RecordSizeExceedsBuffer));
    } else if size <= 0 {
        return Err(DmapError::Message(Fault::RecordSizeNotPositive));
    }
    let scalar_count = read_int(buffer, position + 8)?;
    let array_count = read_int(buffer, position + 12)?;
    if scalar_count <= 0 {
        return Err(DmapError::Message(Fault::ScalarCountNotPositive));
    } else if array_count <= 0 {
        return Err(DmapError::Message(Fault::ArrayCountNotPositive));
    } else if scalar_count as i64 + array_count as i64 > size as i64 {
        return Err(DmapError::Message(Fault::ElementCountExceedsSize));
    }
    Ok(Header { code, size, scalar_count, array_count })
}

/// A product that exceeds a bound still exceeds it when multiplied by a
/// positive number.
proof fn lemma_product_stays_above(product: int, d: int, bound: int)
    by (nonlinear_arith)
    requires
        product > bound,
        bound >= 0,
        d >= 1,
    ensures
        product * d > bound,
{
}

/// The product of two positive numbers that fit 31 bits is positive and fits
/// 62 bits.
proof fn lemma_product_fits(a: int, b: int)
    by (nonlinear_arith)
    requires
        0 < a <= 0x7fff_ffff,
        0 < b <= 0x7fff_ffff,
    ensures
        0 < a * b <= 0x3fff_ffff_0000_0001,
{
}

/// One more named entry joins the names and the map that the entries decoded
/// before it have built.
proof fn lemma_entry_stored<E>(
    names: Seq<Seq<char>>,
    entries: Map<Seq<char>, E>,
    items: Seq<(Seq<char>, E)>,
    name: Seq<char>,
    entry: E,
)
    requires
        names == entry_names(items),
        entries == entries_map(items),
    ensures
        names.push(name) == entry_names(items.push((name, entry))),
        entries.insert(name, entry) == entries_map(items.push((name, entry))),
{
    let next = items.push((name, entry));
    assert(next.drop_last() =~= items);
    assert(names.push(name) =~= entry_names(next));
}

/// The names of a list with one more string are the names of the list with
/// one more name.
proof fn lemma_name_pushed(list: Seq<String>, name: String)
    ensures
        names_of(list.push(name)) == names_of(list).push(name@),
{
    assert(names_of(list.push(name)) =~= names_of(list).push(name@));
}

/// Reads a singular value of type data_type starting from position; hands
/// back the value and the position after it.
pub fn read_data(buffer: &[u8], position: usize, data_type: &DmapType) -> (r: Result<
    (DmapType, usize),
    DmapError,
>)
    ensures
        match r {
            Ok((value, end)) => position <= end <= buffer@.len() && spec_read_data(
                buffer@,
                position as int,
                data_type@.tag(),
            ) == Ok::<(TypedValue, nat), DmapError>((value@, (end - position) as nat)),
            Err(e) => spec_read_data(buffer@, position as int, data_type@.tag()) == Err::<
                (TypedValue, nat),
                DmapError,
            >(e),
        },
    decreases remaining(buffer@, position as int), 1nat, 0nat,
{
    proof {
        reveal(spec_parse_record);
    }
    let data_size = data_type.get_num_bytes() as usize;
    let data = window(buffer, position, data_size)?;
    match data_type {
        DmapType::DMAP => {
            let (_, end) = parse_record(buffer, position)?;
            Ok((DmapType::DMAP, end))
        },
        DmapType::STRING(_) => {
            let (text, end) = read_text(buffer, position)?;
            Ok((DmapType::STRING(text), end))
        },
        _ => {
            let parsed_data = read_number(data, data_type)?;
            Ok((parsed_data, position + data_size))
        },
    }
}

/// Reads `count` values of type data_type starting from position; hands back
/// the values and the position after them.
fn read_values(buffer: &[u8], position: usize, count: usize, data_type: &DmapType) -> (r: Result<
    (Vec<DmapType>, usize),
    DmapError,
>)
    requires
        position <= buffer@.len(),
    ensures
        match r {
            Ok((values, end)) => position <= end <= buffer@.len() && spec_read_values(
                buffer@,
                position as int,
                count as nat,
                data_type@.tag(),
            ) == Ok::<(Seq<TypedValue>, nat), DmapError>(
                (values_of(values@), (end - position) as nat),
            ),
            Err(e) => spec_read_values(
                buffer@,
                position as int,
                count as nat,
                data_type@.tag(),
            ) == Err::<(Seq<TypedValue>, nat), DmapError>(e),
        },
    decreases remaining(buffer@, position as int), 4nat, count,
{
    let ghost buf = buffer@;
    let ghost key = data_type@.tag();
    let mut data: Vec<DmapType> = Vec::new();
    let mut at = position;
    let mut k: usize = 0;
    assert(values_of(data@) =~= Seq::<TypedValue>::empty());
    while k < count
        invariant
            buf == buffer@,
            key == data_type@.tag(),
            k <= count,
            position <= at <= buf.len(),
            spec_read_values(buf, position as int, k as nat, key) == Ok::<
                (Seq<TypedValue>, nat),
                DmapError,
            >((values_of(data@), (at - position) as nat)),
        decreases count - k,
    {
        match read_data(buffer, at, data_type) {
            Ok((value, end)) => {
                proof {
                    assert(values_of(data@.push(value)) =~= values_of(data@).push(value@));
                }
                data.push(value);
                at = end;
            },
            Err(e) => {
                proof {
                    lemma_values_fail(buf, position as int, (k + 1) as nat, count as nat, key);
                }
                return Err(e);
            },
        }
        k += 1;
    }
    Ok((data, at))
}

/// Reads a scalar starting from position; hands back its name, the scalar
/// and the position after it.
pub fn parse_scalar(buffer: &[u8], position: usize) -> (r: Result<
    ((String, RawDmapScalar), usize),
    DmapError,
>)
    ensures
        match r {
            Ok(((name, scalar), end)) => position < end <= buffer@.len() && spec_parse_scalar(
                buffer@,
                position as int,
            ) == Ok::<((Seq<char>, ScalarEntry), nat), DmapError>(
                ((name@, scalar@), (end - position) as nat),
            ),
            Err(e) => spec_parse_scalar(buffer@, position as int) == Err::<
                ((Seq<char>, ScalarEntry), nat),
                DmapError,
            >(e),
        },
    decreases remaining(buffer@, position as int), 3nat, 0nat,
{
    proof {
        reveal(spec_parse_record);
    }
    let (name, after_name) = read_text(buffer, position)?;
    let data_type_key = read_char(buffer, after_name)?;

    if !DmapType::is_key(data_type_key) {
        return Err(
            DmapError::BadVal(Fault::ScalarTypeCorrupted, DmapType::CHAR(data_type_key)),
        );
    }
    let data_type = DmapType::get_type_from_key(data_type_key)?;

    let (data, end) = if data_type_key == 0 {
        let (_, end) = parse_record(buffer, after_name + 1)?;
        (DmapType::DMAP, end)
    } else {
        read_data(buffer, after_name + 1, &data_type)?
    };

    Ok(((name, RawDmapScalar { data }), end))
}

/// Reads `count` scalars starting from position; hands back their names in
/// order, the scalars by name, and the position after them.
fn parse_scalars(buffer: &[u8], position: usize, count: i32) -> (r: Result<
    (Vec<String>, NameMap<RawDmapScalar>, usize),
    DmapError,
>)
    requires
        position <= buffer@.len(),
        0 <= count,
    ensures
        match spec_parse_scalars(buffer@, position as int, count as nat) {
            Ok((items, used)) => r matches Ok((list, map, end)) && end == position + used && end
                <= buffer@.len() && names_of(list@) == entry_names(items) && scalar_entries(map@)
                == entries_map(items),
            Err(e) => r == Err::<(Vec<String>, NameMap<RawDmapScalar>, usize), DmapError>(e),
        },
    decreases remaining(buffer@, position as int), 4nat, count,
{
    let ghost buf = buffer@;
    let mut scalar_list: Vec<String> = Vec::new();
    let mut scalars: NameMap<RawDmapScalar> = NameMap::new();
    let ghost mut items: Seq<(Seq<char>, ScalarEntry)> = Seq::empty();
    proof {
        assert(names_of(scalar_list@) =~= entry_names(items));
        assert(scalar_entries(scalars@) =~= entries_map(items));
    }
    let mut at = position;
    let mut i: i32 = 0;
    while i < count
        invariant
            buf == buffer@,
            0 <= i <= count,
            position <= at <= buf.len(),
            spec_parse_scalars(buf, position as int, i as nat) == Ok::<
                (Seq<(Seq<char>, ScalarEntry)>, nat),
                DmapError,
            >((items, (at - position) as nat)),
            names_of(scalar_list@) == entry_names(items),
            scalar_entries(scalars@) == entries_map(items),
        decreases count - i,
    {
        match parse_scalar(buffer, at) {
            Ok(((name, val), end)) => {
                proof {
                    lemma_name_pushed(scalar_list@, name);
                    assert(scalar_entries(scalars@.insert(name@, val)) =~= scalar_entries(
                        scalars@,
                    ).insert(name@, val@));
                    lemma_entry_stored(
                        names_of(scalar_list@),
                        scalar_entries(scalars@),
                        items,
                        name@,
                        val@,
                    );
                    items = items.push((name@, val@));
                }
                scalar_list.push(name.clone());
                scalars.insert(name, val);
                at = end;
            },
            Err(e) => {
                proof {
                    lemma_scalars_fail(buf, position as int, (i + 1) as nat, count as nat);
                }
                return Err(e);
            },
        }
        i += 1;
    }
    Ok((scalar_list, scalars, at))
}

/// Reads `count` dimensions starting from position, each positive and at
/// most `record_size`; hands back the dimensions and their product, or a
/// number above `record_size` where the product is above it.
fn read_dimensions(buffer: &[u8], position: usize, count: i32, record_size: i32) -> (r: Result<
    (Vec<i32>, i64),
    DmapError,
>)
    requires
        0 <= count,
        0 <= record_size,
        position <= buffer@.len(),
    ensures
        match r {
            Ok((dimensions, total)) => {
                &&& spec_read_dimensions(buffer@, position as int, count as nat, record_size)
                    == Ok::<Seq<i32>, DmapError>(dimensions@)
                &&& position + 4 * count <= buffer@.len()
                &&& element_count(dimensions@) > 0
                &&& element_count(dimensions@) <= record_size ==> total == element_count(
                    dimensions@,
                )
                &&& element_count(dimensions@) > record_size ==> total > record_size
            },
            Err(e) => spec_read_dimensions(buffer@, position as int, count as nat, record_size)
                == Err::<Seq<i32>, DmapError>(e),
        },
{
    let ghost buf = buffer@;
    let mut dimensions: Vec<i32> = Vec::new();
    let mut total_elements: i64 = 1;
    let mut at = position;
    let mut i: i32 = 0;
    while i < count
        invariant
            buf == buffer@,
            0 <= i <= count,
            0 <= record_size,
            at == position + 4 * i,
            at <= buf.len(),
            dimensions@.len() == i,
            spec_read_dimensions(buf, position as int, i as nat, record_size) == Ok::<
                Seq<i32>,
                DmapError,
            >(dimensions@),
            element_count(dimensions@) > 0,
            element_count(dimensions@) <= record_size ==> total_elements == element_count(
                dimensions@,
            ),
            element_count(dimensions@) > record_size ==> total_elements > record_size,
            0 < total_elements <= 0x3fff_ffff_0000_0001,
        decreases count - i,
    {
        let dim = match read_int(buffer, at) {
            Ok(dim) => dim,
            Err(e) => {
                proof {
                    lemma_dimensions_fail(
                        buf,
                        position as int,
                        (i + 1) as nat,
                        count as nat,
                        record_size,
                    );
                }
                return Err(e);
            },
        };
        if dim <= 0 {
            proof {
                lemma_dimensions_fail(
                    buf,
                    position as int,
                    (i + 1) as nat,
                    count as nat,
                    record_size,
                );
            }
            return Err(DmapError::Message(Fault::DimensionNotPositive));
        } else if dim > record_size {
            proof {
                lemma_dimensions_fail(
                    buf,
                    position as int,
                    (i + 1) as nat,
                    count as nat,
                    record_size,
                );
            }
            return Err(DmapError::Message(Fault::DimensionExceedsSize));
        }
        proof {
            let before = dimensions@;
            let after = before.push(dim);
            assert(after.drop_last() =~= before);
            assert(element_count(after) == element_count(before) * dim);
            if element_count(before) > record_size {
                lemma_product_stays_above(element_count(before), dim as int, record_size as int);
            } else {
                lemma_product_fits(element_count(before), dim as int);
            }
        }
        dimensions.push(dim);
        if total_elements <= record_size as i64 {
            total_elements = total_elements * (dim as i64);
        }
        at = at + 4;
        i += 1;
    }
    Ok((dimensions, total_elements))
}

/// Reads an array starting from position; hands back its name, the array and
/// the position after it.
#[verifier::rlimit(50)]
pub fn parse_array(buffer: &[u8], position: usize, record_size: i32) -> (r: Result<
    ((String, RawDmapArray), usize),
    DmapError,
>)
    ensures
        match r {
            Ok(((name, array), end)) => position < end <= buffer@.len() && spec_parse_array(
                buffer@,
                position as int,
                record_size,
            ) == Ok::<((Seq<char>, ArrayEntry), nat), DmapError>(
                ((name@, array@), (end - position) as nat),
            ),
            Err(e) => spec_parse_array(buffer@, position as int, record_size) == Err::<
                ((Seq<char>, ArrayEntry), nat),
                DmapError,
            >(e),
        },
    decreases remaining(buffer@, position as int), 3nat, 0nat,
{
    let (name, after_name) = read_text(buffer, position)?;
    let data_type_key = read_char(buffer, after_name)?;

    if !DmapType::is_key(data_type_key) {
        return Err(
            DmapError::BadVal(Fault::ArrayTypeCorrupted, DmapType::CHAR(data_type_key)),
        );
    }
    let data_type = DmapType::get_type_from_key(data_type_key)?;

    let array_dimension = read_int(buffer, after_name + 1)?;

    if array_dimension > record_size {
        return Err(DmapError::Message(Fault::DimensionCountExceedsSize));
    } else if array_dimension <= 0 {
        return Err(DmapError::Message(Fault::DimensionCountNotPositive));
    }
    let (dimensions, total_elements) = read_dimensions(
        buffer,
        after_name + 5,
        array_dimension,
        record_size,
    )?;

    let width = data_type.get_num_bytes() as i64;
    if total_elements > record_size as i64 {
        return Err(DmapError::Message(Fault::ElementsExceedSize));
    }
    assert(0 <= total_elements * width <= 0x7fff_ffff * 8) by (nonlinear_arith)
        requires
            0 < total_elements <= 0x7fff_ffff,
            0 <= width <= 8,
    ;
    if total_elements * width > record_size as i64 {
        return Err(DmapError::Message(Fault::ArrayExceedsSize));
    }
    let start = after_name + 5 + 4 * (array_dimension as usize);
    let (data, end) = read_values(buffer, start, total_elements as usize, &data_type)?;
    Ok(((name, RawDmapArray { dimensions, data }), end))
}

/// Reads `count` arrays of a record of `record_size` bytes starting from
/// position; hands back their names in order, the arrays by name, and the
/// position after them.
fn parse_arrays(buffer: &[u8], position: usize, count: i32, record_size: i32) -> (r: Result<
    (Vec<String>, NameMap<RawDmapArray>, usize),
    DmapError,
>)
    requires
        position <= buffer@.len(),
        0 <= count,
    ensures
        match spec_parse_arrays(buffer@, position as int, count as nat, record_size) {
            Ok((items, used)) => r matches Ok((list, map, end)) && end == position + used && end
                <= buffer@.len() && names_of(list@) == entry_names(items) && array_entries(map@)
                == entries_map(items),
            Err(e) => r == Err::<(Vec<String>, NameMap<RawDmapArray>, usize), DmapError>(e),
        },
    decreases remaining(buffer@, position as int), 4nat, count,
{
    let ghost buf = buffer@;
    let mut array_list: Vec<String> = Vec::new();
    let mut arrays: NameMap<RawDmapArray> = NameMap::new();
    let ghost mut items: Seq<(Seq<char>, ArrayEntry)> = Seq::empty();
    proof {
        assert(names_of(array_list@) =~= entry_names(items));
        assert(array_entries(arrays@) =~= entries_map(items));
    }
    let mut at = position;
    let mut i: i32 = 0;
    while i < count
        invariant
            buf == buffer@,
            0 <= i <= count,
            position <= at <= buf.len(),
            spec_parse_arrays(buf, position as int, i as nat, record_size) == Ok::<
                (Seq<(Seq<char>, ArrayEntry)>, nat),
                DmapError,
            >((items, (at - position) as nat)),
            names_of(array_list@) == entry_names(items),
            array_entries(arrays@) == entries_map(items),
        decreases count - i,
    {
        match parse_array(buffer, at, record_size) {
            Ok(((name, val), end)) => {
                proof {
                    lemma_name_pushed(array_list@, name);
                    assert(array_entries(arrays@.insert(name@, val)) =~= array_entries(
                        arrays@,
                    ).insert(name@, val@));
                    lemma_entry_stored(
                        names_of(array_list@),
                        array_entries(arrays@),
                        items,
                        name@,
                        val@,
                    );
                    items = items.push((name@, val@));
                }
                array_list.push(name.clone());
                arrays.insert(name, val);
                at = end;
            },
            Err(e) => {
                proof {
                    lemma_arrays_fail(
                        buf,
                        position as int,
                        (i + 1) as nat,
                        count as nat,
                        record_size,
                    );
                }
                return Err(e);
            },
        }
        i += 1;
    }
    Ok((array_list, arrays, at))
}

/// Reads a record starting from position; hands back the record and the
/// position after it.
pub fn parse_record(buffer: &[u8], position: usize) -> (r: Result<
    (RawDmapRecord, usize),
    DmapError,
>)
    ensures
        match r {
            Ok((record, end)) => position < end <= buffer@.len() && spec_parse_record(
                buffer@,
                position as int,
            ) == Ok::<(Record, nat), DmapError>((record@, (end - position) as nat)),
            Err(e) => spec_parse_record(buffer@, position as int) == Err::<
                (Record, nat),
                DmapError,
            >(e),
        },
    decreases remaining(buffer@, position as int), 0nat, 0nat,
{
    proof {
        reveal(spec_parse_record);
    }
    let header = read_header(buffer, position)?;
    let size = header.size;
    let num_scalars = header.scalar_count;
    let num_arrays = header.array_count;

    let (scalar_list, scalars, at) = parse_scalars(
        buffer,
        position + HEADER_BYTES,
        num_scalars,
    )?;
    let (array_list, arrays, end) = parse_arrays(buffer, at, num_arrays, size)?;

    if end - position != size as usize {
        return Err(DmapError::Message(Fault::RecordSizeMismatch));
    }
    Ok((RawDmapRecord { num_scalars, scalars, num_arrays, arrays, scalar_list, array_list }, end))
}

/// Parses the whole of dmap_data into a collection of RawDmapRecord's.
///
/// # Failures
/// If dmap_data contains invalid data: nothing is handed back then.
pub fn read_records(dmap_data: &[u8]) -> (r: Result<Vec<RawDmapRecord>, DmapError>)
    ensures
        match r {
            Ok(records) => spec_read_records(dmap_data@, 0) == Ok::<Seq<Record>, DmapError>(
                records_of(records@),
            ),
            Err(e) => spec_read_records(dmap_data@, 0) == Err::<Seq<Record>, DmapError>(e),
        },
{
    let mut position: usize = 0;
    let mut dmap_records: Vec<RawDmapRecord> = Vec::new();
    assert(records_of(dmap_records@) + Seq::<Record>::empty() =~= Seq::<Record>::empty());
    proof {
        lemma_records_end(dmap_data@, dmap_data@.len() as int);
    }

    while position < dmap_data.len()
        invariant
            position <= dmap_data@.len(),
            spec_read_records(dmap_data@, dmap_data@.len() as int) == Ok::<
                Seq<Record>,
                DmapError,
            >(Seq::empty()),
            spec_read_records(dmap_data@, 0) == followed_by(
                records_of(dmap_records@),
                spec_read_records(dmap_data@, position as int),
            ),
        decreases dmap_data@.len() - position,
    {
        match parse_record(dmap_data, position) {
            Ok((record, end)) => {
                proof {
                    let done = records_of(dmap_records@);
                    assert(records_of(dmap_records@.push(record)) =~= done.push(record@));
                    lemma_record_joins(
                        dmap_data@,
                        position as int,
                        done,
                        record@,
                        (end - position) as nat,
                    );
                }
                dmap_records.push(record);
                position = end;
            },
            Err(e) => {
                proof {
                    lemma_records_fail(dmap_data@, position as int);
                }
                return Err(e);
            },
        }
    }
    assert(records_of(dmap_records@) + Seq::<Record>::empty() =~= records_of(dmap_records@));
    Ok(dmap_records)
}

} // verus!
