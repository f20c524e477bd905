//! Lemmas on entries that stand in a buffer in their wire form, and on what
//! the decoder can hand back.

use crate::bytes::{le_bytes, lemma_le_signed_inverts, lemma_le_unsigned_inverts};
use crate::error::{DmapError, ErrorKind, Fault};
use crate::grammar::{
    entries_map, entry_names, is_number, number_of, spec_parse_array, spec_parse_arrays,
    spec_parse_scalar, spec_parse_scalars, spec_read_char, spec_read_data, spec_read_dimensions,
    spec_read_int, spec_read_text, spec_read_values, terminator,
};
use crate::model::{
    dimension_bytes, element_count, listed_items, name_bytes, records_bytes, value_bytes,
    ArrayEntry, HEADER_BYTES, RECORD_CODE, Record, ScalarEntry,
};
use crate::value::{is_tag, tag_width, wire_safe, TypedValue};
use vstd::prelude::*;
use vstd::utf8::{
    encode_scalar, encode_utf8, encode_utf8_decode_utf8, encode_utf8_valid_utf8,
    last_continuation_byte, leading_byte_width_1, leading_byte_width_2, leading_byte_width_3,
    leading_byte_width_4, second_last_continuation_byte, third_last_continuation_byte,
};

verus! {

/// The bytes `bytes` stand in `buf` from `pos` on.
pub open spec fn holds_at(buf: Seq<u8>, pos: int, bytes: Seq<u8>) -> bool {
    &&& 0 <= pos
    &&& pos + bytes.len() <= buf.len()
    &&& buf.subrange(pos, pos + bytes.len()) == bytes
}

/// Where two runs of bytes stand in a buffer one after the other, each of
/// them stands there.
pub proof fn lemma_holds_split(buf: Seq<u8>, pos: int, a: Seq<u8>, b: Seq<u8>)
    requires
        holds_at(buf, pos, a + b),
    ensures
        holds_at(buf, pos, a),
        holds_at(buf, pos + a.len(), b),
{
    let whole = buf.subrange(pos, pos + (a + b).len());
    assert(buf.subrange(pos, pos + a.len()) =~= whole.subrange(0, a.len() as int));
    assert((a + b).subrange(0, a.len() as int) =~= a);
    assert(buf.subrange(pos + a.len(), pos + a.len() + b.len()) =~= whole.subrange(
        a.len() as int,
        (a + b).len() as int,
    ));
    assert((a + b).subrange(a.len() as int, (a + b).len() as int) =~= b);
}

/// Bytes that stand in a buffer still stand there when the buffer is cut
/// behind them.
pub proof fn lemma_cut_behind(buf: Seq<u8>, pos: int, bytes: Seq<u8>, cut: int)
    requires
        holds_at(buf, pos, bytes),
        pos + bytes.len() <= cut <= buf.len(),
    ensures
        holds_at(buf.take(cut), pos, bytes),
{
    assert(buf.take(cut).subrange(pos, pos + bytes.len()) =~= buf.subrange(
        pos,
        pos + bytes.len(),
    ));
}

/// Of bytes that stand in a buffer, the beginning is left when the buffer is
/// cut within them.
pub proof fn lemma_cut_within(buf: Seq<u8>, pos: int, bytes: Seq<u8>, cut: int)
    requires
        holds_at(buf, pos, bytes),
        pos <= cut < pos + bytes.len(),
    ensures
        buf.take(cut).subrange(pos, cut) == bytes.take(cut - pos),
{
    let stored = buf.subrange(pos, pos + bytes.len());
    assert forall|j: int| 0 <= j < cut - pos implies buf.take(cut)[pos + j] == bytes[j] by {
        assert(stored[j] == buf[pos + j]);
    }
    assert(buf.take(cut).subrange(pos, cut) =~= bytes.take(cut - pos));
}

/// No byte of the UTF-8 form of a scalar other than zero is zero.
pub proof fn lemma_scalar_bytes_nonzero(c: u32)
    by (bit_vector)
    requires
        c != 0,
    ensures
        c <= 0x7F ==> leading_byte_width_1(c) != 0,
        leading_byte_width_2(c) != 0,
        leading_byte_width_3(c) != 0,
        leading_byte_width_4(c) != 0,
        last_continuation_byte(c) != 0,
        second_last_continuation_byte(c) != 0,
        third_last_continuation_byte(c) != 0,
{
}

/// The UTF-8 form of a text without the character of code zero holds no zero
/// byte.
pub proof fn lemma_text_bytes_nonzero(text: Seq<char>)
    requires
        wire_safe(text),
    ensures
        forall|i: int| 0 <= i < encode_utf8(text).len() ==> encode_utf8(text)[i] != 0,
    decreases text.len(),
{
    if text.len() > 0 {
        let c = text[0] as u32;
        lemma_scalar_bytes_nonzero(c);
        let rest = text.drop_first();
        assert forall|i: int| 0 <= i < rest.len() implies rest[i] as u32 != 0 by {
            assert(rest[i] == text[i + 1]);
        }
        lemma_text_bytes_nonzero(rest);
        let head = encode_scalar(c);
        let tail = encode_utf8(rest);
        let all = encode_utf8(text);
        assert(all == head + tail);
        assert forall|i: int| 0 <= i < all.len() implies all[i] != 0 by {
            if i < head.len() {
                assert(all[i] == head[i]);
            } else {
                assert(all[i] == tail[i - head.len()]);
            }
        }
    }
}

/// Where no byte from `pos` up to `end` is zero and the byte at `end` is, the
/// terminator found from `pos` is `end`.
pub proof fn lemma_terminator_found(buf: Seq<u8>, pos: int, end: int)
    requires
        0 <= pos <= end < buf.len(),
        forall|i: int| pos <= i < end ==> buf[i] != 0,
        buf[end] == 0,
    ensures
        terminator(buf, pos) == end,
    decreases end - pos,
{
    if pos < end {
        lemma_terminator_found(buf, pos + 1, end);
    }
}

/// A wire-safe text that stands in a buffer in its wire form is read back as
/// it is.
pub proof fn lemma_text_round_trip(buf: Seq<u8>, pos: int, text: Seq<char>)
    requires
        wire_safe(text),
        holds_at(buf, pos, name_bytes(text)),
    ensures
        spec_read_text(buf, pos) == Ok::<(Seq<char>, nat), DmapError>(
            (text, name_bytes(text).len()),
        ),
{
    let encoded = encode_utf8(text);
    let end = pos + encoded.len();
    lemma_text_bytes_nonzero(text);
    let stored = buf.subrange(pos, pos + name_bytes(text).len());
    assert forall|i: int| pos <= i < end implies buf[i] != 0 by {
        assert(buf[i] == stored[i - pos]);
        assert(name_bytes(text)[i - pos] == encoded[i - pos]);
    }
    assert(buf[end] == stored[end - pos]);
    assert(name_bytes(text)[end - pos] == 0);
    lemma_terminator_found(buf, pos, end);
    assert(buf.subrange(pos, end) =~= encoded);
    encode_utf8_valid_utf8(text);
    encode_utf8_decode_utf8(text);
}

/// The bytes of a number are as many as its type is wide, and spell the
/// number.
pub proof fn lemma_number_round_trip(w: Seq<u8>, v: TypedValue)
    requires
        is_number(v.tag()),
        w == v.bytes(),
    ensures
        w.len() == tag_width(v.tag()),
        number_of(v.tag(), w) == v,
{
    match v {
        TypedValue::Int8(x) => {
            lemma_le_signed_inverts(x as int, 1);
        },
        TypedValue::Int16(x) => {
            lemma_le_signed_inverts(x as int, 2);
        },
        TypedValue::Int32(x) => {
            lemma_le_signed_inverts(x as int, 4);
        },
        TypedValue::Int64(x) => {
            lemma_le_signed_inverts(x as int, 8);
        },
        TypedValue::UInt8(x) => {
            lemma_le_unsigned_inverts(x as int, 1);
        },
        TypedValue::UInt16(x) => {
            lemma_le_unsigned_inverts(x as int, 2);
        },
        TypedValue::UInt32(x) => {
            lemma_le_unsigned_inverts(x as int, 4);
        },
        TypedValue::UInt64(x) => {
            lemma_le_unsigned_inverts(x as int, 8);
        },
        TypedValue::Float32(x) => {
            lemma_le_unsigned_inverts(x as int, 4);
        },
        TypedValue::Float64(x) => {
            lemma_le_unsigned_inverts(x as int, 8);
        },
        _ => {},
    }
}

/// A four-byte signed integer that stands in a buffer is read back as it is.
pub proof fn lemma_int_round_trip(buf: Seq<u8>, pos: int, x: i32)
    requires
        holds_at(buf, pos, le_bytes(x as int, 4)),
    ensures
        spec_read_int(buf, pos) == Ok::<i32, DmapError>(x),
{
    lemma_le_signed_inverts(x as int, 4);
}

/// A one-byte signed integer that stands in a buffer is read back as it is.
pub proof fn lemma_char_round_trip(buf: Seq<u8>, pos: int, x: i8)
    requires
        holds_at(buf, pos, le_bytes(x as int, 1)),
    ensures
        spec_read_char(buf, pos) == Ok::<i8, DmapError>(x),
{
    lemma_le_signed_inverts(x as int, 1);
}

/// A portable value that stands in a buffer in its wire form is read back as
/// it is, and reading it takes the bytes of that form.
pub proof fn lemma_value_round_trip(buf: Seq<u8>, pos: int, v: TypedValue)
    requires
        v.portable(),
        holds_at(buf, pos, v.bytes()),
    ensures
        spec_read_data(buf, pos, v.tag()) == Ok::<(TypedValue, nat), DmapError>(
            (v, v.bytes().len()),
        ),
        v.bytes().len() >= 1,
        v.bytes().len() >= tag_width(v.tag()),
{
    match v {
        TypedValue::Text(text) => {
            lemma_text_round_trip(buf, pos, text);
        },
        _ => {
            lemma_number_round_trip(v.bytes(), v);
        },
    }
}

/// A run of portable values of one type that stands in a buffer in its wire
/// form is read back as it is. It takes at least one byte for each value, and
/// at least the declared width of the type.
pub proof fn lemma_values_round_trip(buf: Seq<u8>, pos: int, values: Seq<TypedValue>, key: i8)
    requires
        holds_at(buf, pos, value_bytes(values)),
        forall|i: int| 0 <= i < values.len() ==> values[i].portable() && values[i].tag() == key,
    ensures
        spec_read_values(buf, pos, values.len(), key) == Ok::<(Seq<TypedValue>, nat), DmapError>(
            (values, value_bytes(values).len()),
        ),
        value_bytes(values).len() >= values.len(),
        value_bytes(values).len() >= values.len() * tag_width(key),
    decreases values.len(),
{
    if values.len() > 0 {
        let init = values.drop_last();
        let last = values.last();
        lemma_holds_split(buf, pos, value_bytes(init), last.bytes());
        lemma_values_round_trip(buf, pos, init, key);
        lemma_value_round_trip(buf, pos + value_bytes(init).len(), last);
        assert(init.push(last) =~= values);
        assert(values.len() * tag_width(key) == init.len() * tag_width(key) + tag_width(key))
            by (nonlinear_arith)
            requires
                values.len() == init.len() + 1,
        ;
    } else {
        assert(values =~= Seq::<TypedValue>::empty());
    }
}

/// Dimensions within their bounds that stand in a buffer in their wire form
/// are read back as they are, four bytes each.
pub proof fn lemma_dimensions_round_trip(
    buf: Seq<u8>,
    pos: int,
    dimensions: Seq<i32>,
    record_size: i32,
)
    requires
        holds_at(buf, pos, dimension_bytes(dimensions)),
        forall|i: int|
            0 <= i < dimensions.len() ==> 0 < #[trigger] dimensions[i] && dimensions[i]
                <= record_size,
    ensures
        spec_read_dimensions(buf, pos, dimensions.len(), record_size) == Ok::<
            Seq<i32>,
            DmapError,
        >(dimensions),
        dimension_bytes(dimensions).len() == 4 * dimensions.len(),
    decreases dimensions.len(),
{
    if dimensions.len() > 0 {
        let init = dimensions.drop_last();
        let last = dimensions.last();
        lemma_holds_split(buf, pos, dimension_bytes(init), le_bytes(last as int, 4));
        lemma_dimensions_round_trip(buf, pos, init, record_size);
        lemma_int_round_trip(buf, pos + 4 * init.len(), last);
        assert(init.push(last) =~= dimensions);
    } else {
        assert(dimensions =~= Seq::<i32>::empty());
    }
}

/// The product of positive dimensions is positive, and no dimension exceeds
/// it.
pub proof fn lemma_element_count_bounds(dimensions: Seq<i32>)
    requires
        forall|i: int| 0 <= i < dimensions.len() ==> dimensions[i] > 0,
    ensures
        element_count(dimensions) >= 1,
        forall|i: int| 0 <= i < dimensions.len() ==> dimensions[i] <= element_count(dimensions),
    decreases dimensions.len(),
{
    if dimensions.len() > 0 {
        let init = dimensions.drop_last();
        let last = dimensions.last() as int;
        lemma_element_count_bounds(init);
        let product = element_count(init);
        assert(product * last >= last && product * last >= product) by (nonlinear_arith)
            requires
                product >= 1,
                last >= 1,
        ;
        assert forall|i: int| 0 <= i < dimensions.len() implies dimensions[i] <= element_count(
            dimensions,
        ) by {
            if i < init.len() {
                assert(init[i] == dimensions[i]);
            }
        }
    }
}

/// A scalar with a wire-safe name and a portable value that stands in a
/// buffer in its wire form is read back as it is.
pub proof fn lemma_scalar_round_trip(buf: Seq<u8>, pos: int, name: Seq<char>, entry: ScalarEntry)
    requires
        wire_safe(name),
        entry.value.portable(),
        holds_at(buf, pos, name_bytes(name) + entry.bytes()),
    ensures
        spec_parse_scalar(buf, pos) == Ok::<((Seq<char>, ScalarEntry), nat), DmapError>(
            ((name, entry), (name_bytes(name) + entry.bytes()).len()),
        ),
        entry.bytes().len() >= 1,
{
    let key = entry.value.tag();
    let tag = le_bytes(key as int, 1);
    lemma_holds_split(buf, pos, name_bytes(name), entry.bytes());
    let after_name = pos + name_bytes(name).len();
    lemma_holds_split(buf, after_name, tag, entry.value.bytes());
    lemma_text_round_trip(buf, pos, name);
    lemma_char_round_trip(buf, after_name, key);
    lemma_value_round_trip(buf, after_name + 1, entry.value);
}

/// An array of portable values fits every record that has room for its
/// bytes.
pub proof fn lemma_array_fits(a: ArrayEntry, record_size: int)
    requires
        a.portable(),
        a.bytes().len() <= record_size,
    ensures
        a.fits(record_size),
        a.elements.len() >= 1,
{
    lemma_element_count_bounds(a.dimensions);
    let key = a.elements[0].tag();
    let buf = value_bytes(a.elements);
    assert(buf.subrange(0, buf.len() as int) =~= buf);
    lemma_values_round_trip(buf, 0, a.elements, key);
    let dims = dimension_bytes(a.dimensions);
    assert(dims.subrange(0, dims.len() as int) =~= dims);
    lemma_dimensions_round_trip(dims, 0, a.dimensions, i32::MAX);
}

/// An array with a wire-safe name and portable values that stands in a
/// buffer in its wire form, within a record whose size it fits, is read back
/// as it is.
#[verifier::rlimit(50)]
pub proof fn lemma_array_round_trip(
    buf: Seq<u8>,
    pos: int,
    name: Seq<char>,
    a: ArrayEntry,
    record_size: i32,
)
    requires
        wire_safe(name),
        a.portable(),
        a.fits(record_size as int),
        holds_at(buf, pos, name_bytes(name) + a.bytes()),
    ensures
        spec_parse_array(buf, pos, record_size) == Ok::<
            ((Seq<char>, ArrayEntry), nat),
            DmapError,
        >(((name, a), (name_bytes(name) + a.bytes()).len())),
        a.bytes().len() >= 1,
{
    lemma_element_count_bounds(a.dimensions);
    let key = a.elements[0].tag();
    let tag = le_bytes(key as int, 1);
    let count = le_bytes(a.dimensions.len() as int, 4);
    let dims = dimension_bytes(a.dimensions);
    let values = value_bytes(a.elements);
    lemma_holds_split(buf, pos, name_bytes(name), a.bytes());
    let after_name = pos + name_bytes(name).len();
    lemma_holds_split(buf, after_name, tag + count + dims, values);
    lemma_holds_split(buf, after_name, tag + count, dims);
    lemma_holds_split(buf, after_name, tag, count);
    lemma_text_round_trip(buf, pos, name);
    lemma_char_round_trip(buf, after_name, key);
    lemma_int_round_trip(buf, after_name + 1, a.dimensions.len() as i32);
    lemma_dimensions_round_trip(buf, after_name + 5, a.dimensions, record_size);
    lemma_values_round_trip(buf, after_name + 5 + 4 * a.dimensions.len(), a.elements, key);
}

/// The first scalars of a record with wire-safe names and portable values
/// that stand in a buffer in their wire form are read back as they are, and
/// take at least one byte each.
pub proof fn lemma_scalars_round_trip(buf: Seq<u8>, pos: int, r: Record, n: nat)
    requires
        n <= r.scalar_order.len(),
        forall|i: int|
            0 <= i < n ==> wire_safe(#[trigger] r.scalar_order[i])
                && r.scalars[r.scalar_order[i]].value.portable(),
        holds_at(buf, pos, r.scalar_bytes(n)),
    ensures
        spec_parse_scalars(buf, pos, n) == Ok::<(Seq<(Seq<char>, ScalarEntry)>, nat), DmapError>(
            (r.scalar_items(n), r.scalar_bytes(n).len()),
        ),
        r.scalar_bytes(n).len() >= n,
    decreases n,
{
    if n > 0 {
        let before = r.scalar_bytes((n - 1) as nat);
        let name = r.scalar_order[n - 1];
        let entry = r.scalars[name];
        assert(wire_safe(r.scalar_order[n - 1]));
        assert(r.scalar_bytes(n) =~= before + (name_bytes(name) + entry.bytes()));
        lemma_holds_split(buf, pos, before, name_bytes(name) + entry.bytes());
        lemma_scalars_round_trip(buf, pos, r, (n - 1) as nat);
        lemma_scalar_round_trip(buf, pos + before.len(), name, entry);
        assert(r.scalar_items((n - 1) as nat).push((name, entry)) =~= r.scalar_items(n));
    } else {
        assert(r.scalar_items(n) =~= Seq::<(Seq<char>, ScalarEntry)>::empty());
    }
}

/// The first arrays of a record with wire-safe names and portable values
/// that stand in a buffer in their wire form, each within the bounds of
/// `record_size`, are read back as they are, and take at least one byte
/// each.
pub proof fn lemma_arrays_round_trip(buf: Seq<u8>, pos: int, r: Record, n: nat, record_size: i32)
    requires
        n <= r.array_order.len(),
        forall|i: int|
            0 <= i < n ==> wire_safe(#[trigger] r.array_order[i])
                && r.arrays[r.array_order[i]].portable() && r.arrays[r.array_order[i]].fits(
                record_size as int,
            ),
        holds_at(buf, pos, r.array_bytes(n)),
    ensures
        spec_parse_arrays(buf, pos, n, record_size) == Ok::<
            (Seq<(Seq<char>, ArrayEntry)>, nat),
            DmapError,
        >((r.array_items(n), r.array_bytes(n).len())),
        r.array_bytes(n).len() >= n,
    decreases n,
{
    if n > 0 {
        let before = r.array_bytes((n - 1) as nat);
        let name = r.array_order[n - 1];
        let entry = r.arrays[name];
        assert(wire_safe(r.array_order[n - 1]));
        assert(r.array_bytes(n) =~= before + (name_bytes(name) + entry.bytes()));
        lemma_holds_split(buf, pos, before, name_bytes(name) + entry.bytes());
        lemma_arrays_round_trip(buf, pos, r, (n - 1) as nat, record_size);
        lemma_array_round_trip(buf, pos + before.len(), name, entry, record_size);
        assert(r.array_items((n - 1) as nat).push((name, entry)) =~= r.array_items(n));
    } else {
        assert(r.array_items(n) =~= Seq::<(Seq<char>, ArrayEntry)>::empty());
    }
}

/// No array among the first `n` of a record takes more bytes than all of
/// them.
pub proof fn lemma_array_bytes_bound(r: Record, n: nat, i: int)
    requires
        0 <= i < n,
    ensures
        r.arrays[r.array_order[i]].bytes().len() <= r.array_bytes(n).len(),
    decreases n,
{
    if i < n - 1 {
        lemma_array_bytes_bound(r, (n - 1) as nat, i);
    }
}

/// The names of the first listed entries are the first names of the list,
/// and storing these entries one after the other builds the map that they
/// were taken from, kept to those names.
pub proof fn lemma_listed_items<E>(order: Seq<Seq<char>>, entries: Map<Seq<char>, E>, n: nat)
    requires
        n <= order.len(),
        forall|i: int| 0 <= i < n ==> entries.contains_key(#[trigger] order[i]),
    ensures
        entry_names(listed_items(order, entries, n)) == order.take(n as int),
        entries_map(listed_items(order, entries, n)) == entries.restrict(
            order.take(n as int).to_set(),
        ),
    decreases n,
{
    let items = listed_items(order, entries, n);
    let names = order.take(n as int);
    assert(entry_names(items) =~= names);
    if n > 0 {
        let init = listed_items(order, entries, (n - 1) as nat);
        let name = order[n - 1];
        lemma_listed_items(order, entries, (n - 1) as nat);
        assert(items.drop_last() =~= init);
        let earlier = order.take(n - 1);
        assert forall|k: Seq<char>| names.to_set().contains(k) == (earlier.to_set().contains(k)
            || k == name) by {
            if names.to_set().contains(k) {
                let i = choose|i: int| 0 <= i < names.len() && names[i] == k;
                if i < n - 1 {
                    assert(earlier[i] == k);
                }
            }
            if earlier.to_set().contains(k) {
                let i = choose|i: int| 0 <= i < earlier.len() && earlier[i] == k;
                assert(names[i] == k);
            }
            if k == name {
                assert(names[n - 1] == k);
            }
        }
        assert(entries.contains_key(order[n - 1]));
        assert(entries_map(items) =~= entries.restrict(names.to_set()));
    } else {
        assert(names.to_set() =~= Set::<Seq<char>>::empty());
        assert(entries_map(items) =~= entries.restrict(names.to_set()));
    }
}

/// The bytes of a record with `size` in place of its size field.
pub open spec fn with_size(bytes: Seq<u8>, size: i32) -> Seq<u8> {
    bytes.take(4) + le_bytes(size as int, 4) + bytes.skip(8)
}

/// The bytes of a record whose size field fits four bytes are those of the
/// record with its own size in place of its size field.
pub proof fn lemma_own_size(r: Record)
    requires
        r.body().len() + HEADER_BYTES <= i32::MAX,
    ensures
        r.bytes().len() == r.body().len() + HEADER_BYTES,
        with_size(r.bytes(), (r.body().len() + HEADER_BYTES) as i32) == r.bytes(),
{
    let size = (r.body().len() + HEADER_BYTES) as i32;
    assert(with_size(r.bytes(), size) =~= r.bytes());
}

/// The header of a record that stands in a buffer in its wire form, with
/// `size` in place of its size field: the four fields are read back as they
/// stand, and the entries follow them.
#[verifier::rlimit(50)]
pub proof fn lemma_header_fields(buf: Seq<u8>, pos: int, r: Record, size: i32)
    requires
        holds_at(buf, pos, with_size(r.bytes(), size)),
    ensures
        with_size(r.bytes(), size).len() == r.body().len() + HEADER_BYTES,
        r.bytes().len() == r.body().len() + HEADER_BYTES,
        spec_read_int(buf, pos) == Ok::<i32, DmapError>(RECORD_CODE),
        spec_read_int(buf, pos + 4) == Ok::<i32, DmapError>(size),
        spec_read_int(buf, pos + 8) == Ok::<i32, DmapError>(r.scalar_count),
        spec_read_int(buf, pos + 12) == Ok::<i32, DmapError>(r.array_count),
        holds_at(buf, pos + HEADER_BYTES, r.body()),
{
    let code = le_bytes(RECORD_CODE as int, 4);
    let total = le_bytes(size as int, 4);
    let scalars = le_bytes(r.scalar_count as int, 4);
    let arrays = le_bytes(r.array_count as int, 4);
    assert(code.len() == 4 && total.len() == 4 && scalars.len() == 4 && arrays.len() == 4);
    assert(le_bytes((r.body().len() + HEADER_BYTES) as int, 4).len() == 4);
    assert(with_size(r.bytes(), size) =~= code + total + scalars + arrays + r.body());
    lemma_holds_split(buf, pos, code + total + scalars + arrays, r.body());
    lemma_holds_split(buf, pos, code + total + scalars, arrays);
    lemma_holds_split(buf, pos, code + total, scalars);
    lemma_holds_split(buf, pos, code, total);
    lemma_int_round_trip(buf, pos, RECORD_CODE);
    lemma_int_round_trip(buf, pos + 4, size);
    lemma_int_round_trip(buf, pos + 8, r.scalar_count);
    lemma_int_round_trip(buf, pos + 12, r.array_count);
}

/// The bytes of two runs of records joined are the bytes of the one followed
/// by the bytes of the other.
pub proof fn lemma_records_bytes_joined(a: Seq<Record>, b: Seq<Record>)
    ensures
        records_bytes(a + b) == records_bytes(a) + records_bytes(b),
    decreases b.len(),
{
    if b.len() > 0 {
        let init = b.drop_last();
        let last = b.last().bytes();
        lemma_records_bytes_joined(a, init);
        assert((a + b).drop_last() =~= a + init);
        assert((a + b).last() == b.last());
        lemma_add_associative(records_bytes(a), records_bytes(init), last);
    } else {
        assert(a + b =~= a);
        assert(records_bytes(a) + Seq::<u8>::empty() =~= records_bytes(a));
    }
}

/// Joining three runs of bytes gives the same whichever two are joined
/// first.
pub proof fn lemma_add_associative(x: Seq<u8>, y: Seq<u8>, z: Seq<u8>)
    ensures
        (x + y) + z == x + (y + z),
{
    assert((x + y) + z =~= x + (y + z));
}

/// Where the bytes of the first `i` records of a run end, the bytes of the
/// next record stand.
pub proof fn lemma_record_stands(records: Seq<Record>, i: int)
    requires
        0 <= i < records.len(),
    ensures
        records_bytes(records.take(i + 1)) == records_bytes(records.take(i)) + records[i].bytes(),
        records_bytes(records.take(i + 1)).len() <= records_bytes(records).len(),
        holds_at(
            records_bytes(records),
            records_bytes(records.take(i)).len() as int,
            records[i].bytes(),
        ),
{
    let upto = records.take(i + 1);
    assert(upto.drop_last() =~= records.take(i));
    assert(upto + records.skip(i + 1) =~= records);
    lemma_records_bytes_joined(upto, records.skip(i + 1));
    let all = records_bytes(records);
    let start = records_bytes(records.take(i)).len() as int;
    assert(all.subrange(start, start + records[i].bytes().len()) =~= records[i].bytes());
}

/// Dimensions that stand in a buffer in their wire form, one of them above
/// `record_size`, are refused for that reason.
pub proof fn lemma_dimensions_refused(
    buf: Seq<u8>,
    pos: int,
    dimensions: Seq<i32>,
    record_size: i32,
)
    requires
        holds_at(buf, pos, dimension_bytes(dimensions)),
        forall|i: int| 0 <= i < dimensions.len() ==> #[trigger] dimensions[i] > 0,
        exists|i: int| 0 <= i < dimensions.len() && #[trigger] dimensions[i] > record_size,
    ensures
        spec_read_dimensions(buf, pos, dimensions.len(), record_size) == Err::<
            Seq<i32>,
            DmapError,
        >(DmapError::Message(Fault::DimensionExceedsSize)),
    decreases dimensions.len(),
{
    let init = dimensions.drop_last();
    let last = dimensions.last();
    lemma_holds_split(buf, pos, dimension_bytes(init), le_bytes(last as int, 4));
    if exists|i: int| 0 <= i < init.len() && #[trigger] init[i] > record_size {
        lemma_dimensions_refused(buf, pos, init, record_size);
    } else {
        let i = choose|i: int| 0 <= i < dimensions.len() && #[trigger] dimensions[i] > record_size;
        if i < init.len() {
            assert(init[i] > record_size);
        }
        assert forall|j: int| 0 <= j < init.len() implies 0 < #[trigger] init[j] && init[j]
            <= record_size by {
            assert(init[j] == dimensions[j]);
        }
        lemma_dimensions_round_trip(buf, pos, init, record_size);
        lemma_int_round_trip(buf, pos + 4 * init.len(), last);
    }
}

/// An array with a wire-safe name and portable values that stands in a
/// buffer in its wire form, within a record whose size it does not fit, is
/// refused for the bound that it breaks first.
#[verifier::rlimit(50)]
pub proof fn lemma_array_refused(
    buf: Seq<u8>,
    pos: int,
    name: Seq<char>,
    a: ArrayEntry,
    record_size: i32,
)
    requires
        wire_safe(name),
        a.portable(),
        !a.fits(record_size as int),
        holds_at(buf, pos, name_bytes(name) + a.bytes()),
    ensures
        spec_parse_array(buf, pos, record_size) == Err::<
            ((Seq<char>, ArrayEntry), nat),
            DmapError,
        >(DmapError::Message(a.refusal(record_size as int))),
        a.refusal(record_size as int).spec_kind() == ErrorKind::SizeIntegrity,
{
    lemma_element_count_bounds(a.dimensions);
    let key = a.elements[0].tag();
    let tag = le_bytes(key as int, 1);
    let count = le_bytes(a.dimensions.len() as int, 4);
    let dims = dimension_bytes(a.dimensions);
    let values = value_bytes(a.elements);
    lemma_holds_split(buf, pos, name_bytes(name), a.bytes());
    let after_name = pos + name_bytes(name).len();
    lemma_holds_split(buf, after_name, tag + count + dims, values);
    lemma_holds_split(buf, after_name, tag + count, dims);
    lemma_holds_split(buf, after_name, tag, count);
    lemma_text_round_trip(buf, pos, name);
    lemma_char_round_trip(buf, after_name, key);
    lemma_int_round_trip(buf, after_name + 1, a.dimensions.len() as i32);
    if a.dimensions.len() <= record_size {
        if exists|i: int| 0 <= i < a.dimensions.len() && #[trigger] a.dimensions[i] > record_size {
            lemma_dimensions_refused(buf, after_name + 5, a.dimensions, record_size);
        } else {
            assert forall|i: int| 0 <= i < a.dimensions.len() implies 0
                < #[trigger] a.dimensions[i] && a.dimensions[i] <= record_size by {}
            lemma_dimensions_round_trip(buf, after_name + 5, a.dimensions, record_size);
        }
    }
}

/// The first arrays of a record with wire-safe names and portable values
/// that stand in a buffer in their wire form are read back as they are if
/// each is within the bounds of `record_size`, and else are refused for a
/// bound on the size.
pub proof fn lemma_arrays_outcome(buf: Seq<u8>, pos: int, r: Record, n: nat, record_size: i32)
    requires
        n <= r.array_order.len(),
        forall|i: int|
            0 <= i < n ==> wire_safe(#[trigger] r.array_order[i])
                && r.arrays[r.array_order[i]].portable(),
        holds_at(buf, pos, r.array_bytes(n)),
    ensures
        match spec_parse_arrays(buf, pos, n, record_size) {
            Ok((items, used)) => items == r.array_items(n) && used == r.array_bytes(n).len(),
            Err(e) => e.spec_fault().spec_kind() == ErrorKind::SizeIntegrity,
        },
    decreases n,
{
    if n > 0 {
        let before = r.array_bytes((n - 1) as nat);
        let name = r.array_order[n - 1];
        let entry = r.arrays[name];
        assert(wire_safe(r.array_order[n - 1]));
        assert(r.array_bytes(n) =~= before + (name_bytes(name) + entry.bytes()));
        lemma_holds_split(buf, pos, before, name_bytes(name) + entry.bytes());
        lemma_arrays_outcome(buf, pos, r, (n - 1) as nat, record_size);
        if entry.fits(record_size as int) {
            lemma_array_round_trip(buf, pos + before.len(), name, entry, record_size);
        } else {
            lemma_array_refused(buf, pos + before.len(), name, entry, record_size);
        }
        assert(r.array_items((n - 1) as nat).push((name, entry)) =~= r.array_items(n));
    } else {
        assert(r.array_items(n) =~= Seq::<(Seq<char>, ArrayEntry)>::empty());
    }
}

/// A value that decodes is of the type that was asked for.
pub proof fn lemma_data_tag(buf: Seq<u8>, pos: int, key: i8)
    requires
        is_tag(key),
    ensures
        spec_read_data(buf, pos, key) matches Ok((value, _)) ==> value.tag() == key,
{
}

/// A run of values that decodes has the length that was asked for, and every
/// value in it is of the type that was asked for.
pub proof fn lemma_values_sound(buf: Seq<u8>, pos: int, n: nat, key: i8)
    requires
        is_tag(key),
    ensures
        spec_read_values(buf, pos, n, key) matches Ok((values, _)) ==> values.len() == n && forall|
            i: int,
        |
            0 <= i < n ==> (#[trigger] values[i]).tag() == key,
    decreases n,
{
    if n > 0 {
        lemma_values_sound(buf, pos, (n - 1) as nat, key);
        match spec_read_values(buf, pos, (n - 1) as nat, key) {
            Ok((values, used)) => {
                lemma_data_tag(buf, pos + used, key);
            },
            Err(_) => {},
        }
    }
}

/// Dimensions that decode are as many as were asked for, each positive and
/// at most `record_size`.
pub proof fn lemma_dimensions_sound(buf: Seq<u8>, pos: int, n: nat, record_size: i32)
    ensures
        spec_read_dimensions(buf, pos, n, record_size) matches Ok(dimensions) ==> dimensions.len()
            == n && forall|i: int|
            0 <= i < n ==> 0 < #[trigger] dimensions[i] && dimensions[i] <= record_size,
    decreases n,
{
    if n > 0 {
        lemma_dimensions_sound(buf, pos, (n - 1) as nat, record_size);
    }
}

/// An array that decodes within a record of `record_size` bytes is
/// well-formed, has at least one dimension, and is within the bounds of
/// `record_size`.
pub proof fn lemma_array_sound(buf: Seq<u8>, pos: int, record_size: i32)
    ensures
        spec_parse_array(buf, pos, record_size) matches Ok(((_, a), _)) ==> a.well_formed()
            && a.fits(record_size as int) && a.dimensions.len() >= 1,
{
    match spec_read_text(buf, pos) {
        Ok((name, n)) => {
            match spec_read_char(buf, pos + n) {
                Ok(key) => {
                    match spec_read_int(buf, pos + n + 1) {
                        Ok(count) => {
                            if is_tag(key) && 0 < count <= record_size {
                                lemma_dimensions_sound(buf, pos + n + 5, count as nat, record_size);
                                match spec_read_dimensions(
                                    buf,
                                    pos + n + 5,
                                    count as nat,
                                    record_size,
                                ) {
                                    Ok(dimensions) => {
                                        lemma_element_count_bounds(dimensions);
                                        lemma_values_sound(
                                            buf,
                                            pos + n + 5 + 4 * count,
                                            element_count(dimensions) as nat,
                                            key,
                                        );
                                    },
                                    Err(_) => {},
                                }
                            }
                        },
                        Err(_) => {},
                    }
                },
                Err(_) => {},
            }
        },
        Err(_) => {},
    }
}

/// A run of scalars that decodes has the length that was asked for.
pub proof fn lemma_scalars_sound(buf: Seq<u8>, pos: int, n: nat)
    ensures
        spec_parse_scalars(buf, pos, n) matches Ok((items, _)) ==> items.len() == n,
    decreases n,
{
    if n > 0 {
        lemma_scalars_sound(buf, pos, (n - 1) as nat);
    }
}

/// A run of arrays that decodes has the length that was asked for, and every
/// array in it is well-formed and within the bounds of `record_size`.
pub proof fn lemma_arrays_sound(buf: Seq<u8>, pos: int, n: nat, record_size: i32)
    ensures
        spec_parse_arrays(buf, pos, n, record_size) matches Ok((items, _)) ==> items.len() == n
            && forall|i: int|
            0 <= i < n ==> (#[trigger] items[i]).1.well_formed() && items[i].1.fits(
                record_size as int,
            ),
    decreases n,
{
    if n > 0 {
        lemma_arrays_sound(buf, pos, (n - 1) as nat, record_size);
        match spec_parse_arrays(buf, pos, (n - 1) as nat, record_size) {
            Ok((items, used)) => {
                lemma_array_sound(buf, pos + used, record_size);
            },
            Err(_) => {},
        }
    }
}

/// The map that named entries build holds exactly their names, and under
/// each name one of the entries of that name.
pub proof fn lemma_entries_map<E>(items: Seq<(Seq<char>, E)>)
    ensures
        entries_map(items).dom() == entry_names(items).to_set(),
        forall|name: Seq<char>| #[trigger]
            entries_map(items).contains_key(name) ==> exists|i: int|
                0 <= i < items.len() && #[trigger] items[i] == (name, entries_map(items)[name]),
    decreases items.len(),
{
    if items.len() > 0 {
        let init = items.drop_last();
        let last = items.last();
        lemma_entries_map(init);
        assert forall|k: Seq<char>| entries_map(items).dom().contains(k) == entry_names(
            items,
        ).to_set().contains(k) by {
            if entry_names(items).to_set().contains(k) {
                let i = choose|i: int| 0 <= i < items.len() && entry_names(items)[i] == k;
                if i < init.len() {
                    assert(entry_names(init)[i] == k);
                }
            }
            if entry_names(init).to_set().contains(k) {
                let i = choose|i: int| 0 <= i < init.len() && entry_names(init)[i] == k;
                assert(entry_names(items)[i] == k);
            }
            if k == last.0 {
                assert(entry_names(items)[items.len() - 1] == k);
            }
        }
        assert(entries_map(items).dom() =~= entry_names(items).to_set());
        assert forall|name: Seq<char>| #[trigger]
            entries_map(items).contains_key(name) implies exists|i: int|
            0 <= i < items.len() && #[trigger] items[i] == (name, entries_map(items)[name]) by {
            if name == last.0 {
                assert(items[items.len() - 1] == (name, entries_map(items)[name]));
            } else {
                let i = choose|i: int|
                    0 <= i < init.len() && #[trigger] init[i] == (name, entries_map(init)[name]);
                assert(items[i] == (name, entries_map(items)[name]));
            }
        }
    } else {
        assert(entries_map(items).dom() =~= entry_names(items).to_set());
    }
}

} // verus!
