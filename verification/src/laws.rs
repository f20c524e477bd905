//! What holds of the codec as a whole: decoding undoes encoding, and
//! corrupted or truncated input is refused.

use crate::bytes::le_bytes;
use crate::error::{DmapError, ErrorKind, Fault};
use crate::grammar::{
    entries_map, followed_by, lemma_records_end, lemma_records_fail, lemma_records_step,
    spec_parse_array, spec_parse_arrays, spec_parse_record, spec_parse_scalars, spec_read_header,
    spec_read_int, spec_read_records, Header,
};
use crate::lemmas::{
    holds_at, lemma_array_bytes_bound, lemma_array_fits, lemma_array_sound, lemma_arrays_outcome,
    lemma_arrays_round_trip, lemma_arrays_sound, lemma_cut_behind, lemma_cut_within,
    lemma_entries_map, lemma_header_fields, lemma_holds_split, lemma_int_round_trip,
    lemma_listed_items, lemma_own_size, lemma_record_stands, lemma_scalars_round_trip,
    lemma_scalars_sound, with_size,
};
use crate::model::{listed_records, records_bytes, HEADER_BYTES, RECORD_CODE, Record};
use crate::value::{is_tag, shape_of, wire_safe, TypedValue};
use vstd::prelude::*;

verus! {

/// Every value carries a tag of the table, the table leads from that tag to
/// the shape of the value, and every tag of the table is the tag of its own
/// shape.
pub proof fn tag_table_total(v: TypedValue, key: i8)
    ensures
        is_tag(v.tag()),
        shape_of(v.tag()).tag() == v.tag(),
        is_tag(key) ==> shape_of(key).tag() == key,
{
}

/// In a well-formed record every listed name has its entry, and each count
/// is the size of its map.
pub proof fn well_formed_sizes(r: Record)
    requires
        r.well_formed(),
    ensures
        r.complete(),
        r.listed() == r,
        r.scalars.dom().finite(),
        r.arrays.dom().finite(),
        r.scalars.dom().len() == r.scalar_count,
        r.arrays.dom().len() == r.array_count,
{
    r.scalar_order.unique_seq_to_set();
    r.array_order.unique_seq_to_set();
    assert forall|i: int| 0 <= i < r.scalar_order.len() implies r.scalars.contains_key(
        #[trigger] r.scalar_order[i],
    ) by {
        assert(r.scalar_order.to_set().contains(r.scalar_order[i]));
    }
    assert forall|i: int| 0 <= i < r.array_order.len() implies r.arrays.contains_key(
        #[trigger] r.array_order[i],
    ) by {
        assert(r.array_order.to_set().contains(r.array_order[i]));
    }
    assert(r.scalars.restrict(r.scalar_order.to_set()) =~= r.scalars);
    assert(r.arrays.restrict(r.array_order.to_set()) =~= r.arrays);
}

/// A record agrees with what the wire carries of it.
pub proof fn listed_record_agrees(r: Record)
    requires
        r.complete(),
    ensures
        r.agrees(r.listed()),
{
    assert forall|i: int| 0 <= i < r.scalar_order.len() implies r.same_scalar(
        r.listed(),
        #[trigger] r.scalar_order[i],
    ) by {
        assert(r.scalar_order.to_set().contains(r.scalar_order[i]));
    }
    assert forall|i: int| 0 <= i < r.array_order.len() implies r.same_array(
        r.listed(),
        #[trigger] r.array_order[i],
    ) by {
        assert(r.array_order.to_set().contains(r.array_order[i]));
    }
}

/// Decoding undoes encoding: a portable record that stands in a buffer in
/// its wire form is read back with its counts, its names in order and its
/// listed entries, and reading it takes the bytes of that form.
#[verifier::rlimit(50)]
pub proof fn record_round_trip(buf: Seq<u8>, pos: int, r: Record)
    requires
        r.portable(),
        holds_at(buf, pos, r.bytes()),
    ensures
        spec_parse_record(buf, pos) == Ok::<(Record, nat), DmapError>(
            (r.listed(), r.bytes().len()),
        ),
        r.bytes().len() >= HEADER_BYTES,
{
    let n = r.scalar_order.len();
    let m = r.array_order.len();
    let size = (r.body().len() + HEADER_BYTES) as i32;
    lemma_own_size(r);
    lemma_header_fields(buf, pos, r, size);
    let start = pos + HEADER_BYTES;
    lemma_holds_split(buf, start, r.scalar_bytes(n), r.array_bytes(m));
    lemma_scalars_round_trip(buf, start, r, n);
    assert forall|i: int| 0 <= i < m implies wire_safe(#[trigger] r.array_order[i])
        && r.arrays[r.array_order[i]].portable() && r.arrays[r.array_order[i]].fits(
        size as int,
    ) by {
        lemma_array_bytes_bound(r, m, i);
        lemma_array_fits(r.arrays[r.array_order[i]], size as int);
    }
    lemma_arrays_round_trip(buf, start + r.scalar_bytes(n).len(), r, m, size);
    lemma_listed_items(r.scalar_order, r.scalars, n);
    lemma_listed_items(r.array_order, r.arrays, m);
    assert(r.scalar_order.take(n as int) =~= r.scalar_order);
    assert(r.array_order.take(m as int) =~= r.array_order);
    reveal(spec_parse_record);
    reveal(spec_read_header);
    assert(spec_read_header(buf, pos) == Ok::<Header, DmapError>(
        Header {
            code: RECORD_CODE,
            size,
            scalar_count: r.scalar_count,
            array_count: r.array_count,
        },
    ));
}

/// Decoding undoes encoding: a well-formed, portable record that stands in a
/// buffer in its wire form is read back as it is.
pub proof fn record_round_trip_exact(buf: Seq<u8>, pos: int, r: Record)
    requires
        r.well_formed(),
        r.portable(),
        holds_at(buf, pos, r.bytes()),
    ensures
        spec_parse_record(buf, pos) == Ok::<(Record, nat), DmapError>((r, r.bytes().len())),
{
    well_formed_sizes(r);
    record_round_trip(buf, pos, r);
}

/// Decoding from the end of the first `i` records of an encoded run gives
/// the records that follow.
#[verifier::rlimit(50)]
proof fn lemma_stream_from(records: Seq<Record>, i: int)
    requires
        0 <= i <= records.len(),
        forall|j: int| 0 <= j < records.len() ==> (#[trigger] records[j]).portable(),
    ensures
        spec_read_records(records_bytes(records), records_bytes(records.take(i)).len() as int)
            == Ok::<Seq<Record>, DmapError>(listed_records(records).skip(i)),
    decreases records.len() - i,
{
    let buf = records_bytes(records);
    let pos = records_bytes(records.take(i)).len() as int;
    if i < records.len() {
        lemma_record_stands(records, i);
        record_round_trip(buf, pos, records[i]);
        lemma_records_step(buf, pos);
        lemma_stream_from(records, i + 1);
        assert(seq![records[i].listed()] + listed_records(records).skip(i + 1)
            =~= listed_records(records).skip(i));
    } else {
        assert(records.take(i) =~= records);
        assert(listed_records(records).skip(i) =~= Seq::<Record>::empty());
        lemma_records_end(buf, pos);
    }
}

/// Decoding undoes encoding: the bytes of a run of portable records decode
/// to these records, each with its counts, its names in order and its listed
/// entries.
pub proof fn stream_round_trip(records: Seq<Record>)
    requires
        forall|i: int| 0 <= i < records.len() ==> (#[trigger] records[i]).portable(),
    ensures
        spec_read_records(records_bytes(records), 0) == Ok::<Seq<Record>, DmapError>(
            listed_records(records),
        ),
{
    lemma_stream_from(records, 0);
    assert(records.take(0) =~= Seq::<Record>::empty());
    assert(listed_records(records).skip(0) =~= listed_records(records));
}

/// Decoding undoes encoding: the bytes of a run of well-formed, portable
/// records decode to these records.
pub proof fn stream_round_trip_exact(records: Seq<Record>)
    requires
        forall|i: int|
            0 <= i < records.len() ==> (#[trigger] records[i]).well_formed()
                && records[i].portable(),
    ensures
        spec_read_records(records_bytes(records), 0) == Ok::<Seq<Record>, DmapError>(records),
{
    stream_round_trip(records);
    assert forall|i: int| 0 <= i < records.len() implies listed_records(records)[i]
        == records[i] by {
        well_formed_sizes(records[i]);
    }
    assert(listed_records(records) =~= records);
}

/// Decoding undoes encoding, under the equality of records: the bytes of a
/// run of portable records decode to as many records, each of which agrees
/// with the record it was encoded from.
pub proof fn round_trip(records: Seq<Record>)
    requires
        forall|i: int| 0 <= i < records.len() ==> (#[trigger] records[i]).portable(),
    ensures
        spec_read_records(records_bytes(records), 0) matches Ok(decoded) && decoded.len()
            == records.len() && forall|i: int|
            0 <= i < records.len() ==> (#[trigger] records[i]).agrees(decoded[i]),
{
    stream_round_trip(records);
    assert forall|i: int| 0 <= i < records.len() implies (#[trigger] records[i]).agrees(
        listed_records(records)[i],
    ) by {
        listed_record_agrees(records[i]);
    }
}

/// A record of which a buffer holds only the beginning is refused: for want
/// of bytes where its code or size is cut, and else because its size exceeds
/// what the buffer holds.
#[verifier::rlimit(50)]
pub proof fn truncated_record(buf: Seq<u8>, pos: int, r: Record)
    requires
        r.body().len() + HEADER_BYTES <= i32::MAX,
        0 <= pos < buf.len(),
        buf.len() - pos < r.bytes().len(),
        buf.subrange(pos, buf.len() as int) == r.bytes().take(buf.len() - pos),
    ensures
        spec_parse_record(buf, pos) == Err::<(Record, nat), DmapError>(
            DmapError::Message(
                if buf.len() - pos < 8 {
                    Fault::BufferTooShort
                } else {
                    Fault::RecordSizeExceedsBuffer
                },
            ),
        ),
{
    reveal(spec_parse_record);
    reveal(spec_read_header);
    let left = buf.len() - pos;
    let size = (r.body().len() + HEADER_BYTES) as i32;
    if left >= 8 {
        let stored = buf.subrange(pos, buf.len() as int);
        assert(buf.subrange(pos + 4, pos + 8) =~= stored.subrange(4, 8));
        assert(r.bytes().take(left).subrange(4, 8) =~= le_bytes(size as int, 4));
        lemma_int_round_trip(buf, pos + 4, size);
    }
}

/// What decoding a run of records cut at `cut` may give from the end of the
/// first `i` records on: the records from there to the cut, if it falls
/// between two records, or a failure for want of bytes or for a size that
/// exceeds what is left.
pub open spec fn cut_outcome(
    records: Seq<Record>,
    cut: int,
    i: int,
    result: Result<Seq<Record>, DmapError>,
) -> bool {
    match result {
        Ok(decoded) => exists|n: int|
            i <= n <= records.len() && cut == records_bytes(#[trigger] records.take(n)).len()
                && decoded == listed_records(records).subrange(i, n),
        Err(e) => e == DmapError::Message(Fault::BufferTooShort) || e == DmapError::Message(
            Fault::RecordSizeExceedsBuffer,
        ),
    }
}

/// A record that decodes to what the wire carries of record `i` passes on
/// the outcome of what follows it.
proof fn lemma_cut_outcome_step(
    records: Seq<Record>,
    cut: int,
    i: int,
    rest: Result<Seq<Record>, DmapError>,
)
    requires
        0 <= i < records.len(),
        cut_outcome(records, cut, i + 1, rest),
    ensures
        cut_outcome(records, cut, i, followed_by(seq![records[i].listed()], rest)),
{
    match rest {
        Ok(decoded) => {
            let n = choose|n: int|
                i + 1 <= n <= records.len() && cut == records_bytes(
                    #[trigger] records.take(n),
                ).len() && decoded == listed_records(records).subrange(i + 1, n);
            assert(seq![records[i].listed()] + decoded =~= listed_records(records).subrange(i, n));
            assert(cut == records_bytes(records.take(n)).len());
        },
        Err(_) => {},
    }
}

/// Where the cut falls at the end of the first `i` records, decoding from
/// there gives no record.
proof fn lemma_cut_at_end(records: Seq<Record>, cut: int, i: int)
    requires
        0 <= i <= records.len(),
        cut == records_bytes(records.take(i)).len(),
        cut <= records_bytes(records).len(),
    ensures
        cut_outcome(records, cut, i, spec_read_records(records_bytes(records).take(cut), cut)),
{
    lemma_records_end(records_bytes(records).take(cut), cut);
    assert(listed_records(records).subrange(i, i) =~= Seq::<Record>::empty());
}

/// Where the cut falls behind record `i`, the record decodes and passes on
/// the outcome of what follows it.
proof fn lemma_cut_behind_record(records: Seq<Record>, cut: int, i: int)
    requires
        0 <= i < records.len(),
        records[i].portable(),
        records_bytes(records.take(i + 1)).len() <= cut <= records_bytes(records).len(),
        cut_outcome(
            records,
            cut,
            i + 1,
            spec_read_records(
                records_bytes(records).take(cut),
                records_bytes(records.take(i + 1)).len() as int,
            ),
        ),
    ensures
        cut_outcome(
            records,
            cut,
            i,
            spec_read_records(
                records_bytes(records).take(cut),
                records_bytes(records.take(i)).len() as int,
            ),
        ),
{
    let all = records_bytes(records);
    let buf = all.take(cut);
    let pos = records_bytes(records.take(i)).len() as int;
    let r = records[i];
    lemma_record_stands(records, i);
    lemma_cut_behind(all, pos, r.bytes(), cut);
    record_round_trip(buf, pos, r);
    lemma_records_step(buf, pos);
    lemma_cut_outcome_step(records, cut, i, spec_read_records(buf, pos + r.bytes().len()));
}

/// Where the cut falls within record `i`, decoding from the start of that
/// record fails, for want of bytes or for a size that exceeds what is left.
#[verifier::rlimit(50)]
proof fn lemma_cut_within_record(records: Seq<Record>, cut: int, i: int)
    requires
        0 <= i < records.len(),
        records[i].body().len() + HEADER_BYTES <= i32::MAX,
        records_bytes(records.take(i)).len() < cut < records_bytes(records.take(i + 1)).len(),
    ensures
        spec_read_records(
            records_bytes(records).take(cut),
            records_bytes(records.take(i)).len() as int,
        ) matches Err(e) && (e == DmapError::Message(Fault::BufferTooShort) || e
            == DmapError::Message(Fault::RecordSizeExceedsBuffer)),
{
    let all = records_bytes(records);
    let buf = all.take(cut);
    let pos = records_bytes(records.take(i)).len() as int;
    let r = records[i];
    lemma_record_stands(records, i);
    lemma_cut_within(all, pos, r.bytes(), cut);
    truncated_record(buf, pos, r);
    lemma_records_fail(buf, pos);
}

/// Decoding the bytes of a run of portable records cut at `cut`, from the
/// end of the first `i` records on, gives the records from there to the cut
/// if it falls between two records, and else fails.
proof fn lemma_truncated_from(records: Seq<Record>, cut: int, i: int)
    requires
        forall|j: int| 0 <= j < records.len() ==> (#[trigger] records[j]).portable(),
        0 <= i <= records.len(),
        records_bytes(records.take(i)).len() <= cut <= records_bytes(records).len(),
    ensures
        cut_outcome(
            records,
            cut,
            i,
            spec_read_records(
                records_bytes(records).take(cut),
                records_bytes(records.take(i)).len() as int,
            ),
        ),
    decreases records.len() - i,
{
    if records_bytes(records.take(i)).len() == cut {
        lemma_cut_at_end(records, cut, i);
    } else {
        if i == records.len() {
            assert(records.take(i) =~= records);
        }
        lemma_record_stands(records, i);
        if records_bytes(records.take(i + 1)).len() <= cut {
            lemma_truncated_from(records, cut, i + 1);
            lemma_cut_behind_record(records, cut, i);
        } else {
            lemma_cut_within_record(records, cut, i);
        }
    }
}

/// Truncation is safe: what is left of the bytes of a run of portable
/// records when they are cut at any offset decodes to the first records of
/// the run if the cut falls between two records, and else is refused, for
/// want of bytes or because the size of a record exceeds what is left. It
/// never decodes to anything else.
pub proof fn truncated_stream(records: Seq<Record>, cut: int)
    requires
        forall|i: int| 0 <= i < records.len() ==> (#[trigger] records[i]).portable(),
        0 <= cut <= records_bytes(records).len(),
    ensures
        match spec_read_records(records_bytes(records).take(cut), 0) {
            Ok(decoded) => exists|n: int|
                0 <= n <= records.len() && cut == records_bytes(#[trigger] records.take(n)).len()
                    && decoded == listed_records(records.take(n)),
            Err(e) => e == DmapError::Message(Fault::BufferTooShort) || e == DmapError::Message(
                Fault::RecordSizeExceedsBuffer,
            ),
        },
{
    assert(records.take(0) =~= Seq::<Record>::empty());
    lemma_truncated_from(records, cut, 0);
    match spec_read_records(records_bytes(records).take(cut), 0) {
        Ok(decoded) => {
            let n = choose|n: int|
                0 <= n <= records.len() && cut == records_bytes(#[trigger] records.take(n)).len()
                    && decoded == listed_records(records).subrange(0, n);
            assert(listed_records(records).subrange(0, n) =~= listed_records(records.take(n)));
        },
        Err(_) => {},
    }
}

/// A record that decodes takes as many bytes as its size field says.
pub proof fn record_extent(buf: Seq<u8>, pos: int)
    ensures
        spec_parse_record(buf, pos) matches Ok((_, used)) ==> spec_read_int(buf, pos + 4) == Ok::<
            i32,
            DmapError,
        >(used as i32) && 0 < used <= i32::MAX,
{
    reveal(spec_parse_record);
    reveal(spec_read_header);
}

/// Whatever a buffer that holds the whole of a record decodes to at the
/// start of that record, it takes the bytes of the record.
proof fn lemma_whole_record_extent(buf: Seq<u8>, pos: int, r: Record)
    requires
        r.body().len() + HEADER_BYTES <= i32::MAX,
        holds_at(buf, pos, r.bytes()),
    ensures
        spec_parse_record(buf, pos) matches Ok((_, used)) ==> used == r.bytes().len(),
{
    lemma_own_size(r);
    lemma_header_fields(buf, pos, r, (r.body().len() + HEADER_BYTES) as i32);
    record_extent(buf, pos);
}

/// Decoding the bytes of a run of records cut at `cut`, from the end of the
/// first `i` records on, gives records only if the cut falls between two
/// records, and then as many as stand between there and the cut.
#[verifier::rlimit(50)]
proof fn lemma_cut_boundaries_from(records: Seq<Record>, cut: int, i: int)
    requires
        forall|j: int|
            0 <= j < records.len() ==> (#[trigger] records[j]).body().len() + HEADER_BYTES
                <= i32::MAX,
        0 <= i <= records.len(),
        records_bytes(records.take(i)).len() <= cut <= records_bytes(records).len(),
    ensures
        spec_read_records(
            records_bytes(records).take(cut),
            records_bytes(records.take(i)).len() as int,
        ) matches Ok(decoded) ==> exists|n: int|
            i <= n <= records.len() && cut == records_bytes(#[trigger] records.take(n)).len()
                && decoded.len() == n - i,
    decreases records.len() - i,
{
    let all = records_bytes(records);
    let buf = all.take(cut);
    let pos = records_bytes(records.take(i)).len() as int;
    if pos == cut {
        assert(cut == records_bytes(records.take(i)).len());
        lemma_records_end(buf, pos);
    } else {
        if i == records.len() {
            assert(records.take(i) =~= records);
        }
        lemma_record_stands(records, i);
        let r = records[i];
        let end = pos + r.bytes().len();
        if end <= cut {
            lemma_cut_behind(all, pos, r.bytes(), cut);
            lemma_whole_record_extent(buf, pos, r);
            if spec_parse_record(buf, pos) is Ok {
                lemma_records_step(buf, pos);
                lemma_cut_boundaries_from(records, cut, i + 1);
                match spec_read_records(buf, end) {
                    Ok(rest) => {
                        let n = choose|n: int|
                            i + 1 <= n <= records.len() && cut == records_bytes(
                                #[trigger] records.take(n),
                            ).len() && rest.len() == n - (i + 1);
                        assert(cut == records_bytes(records.take(n)).len());
                    },
                    Err(_) => {},
                }
            } else {
                lemma_records_fail(buf, pos);
            }
        } else {
            lemma_cut_within_record(records, cut, i);
        }
    }
}

/// Truncation is safe for every run of records that can be written, portable
/// or not: what is left of their bytes when they are cut at any offset
/// decodes, if at all, only where the cut falls between two records, and
/// then to as many records as stand before the cut. A cut within a record
/// never decodes.
pub proof fn cut_stream_boundaries(records: Seq<Record>, cut: int)
    requires
        forall|i: int|
            0 <= i < records.len() ==> (#[trigger] records[i]).body().len() + HEADER_BYTES
                <= i32::MAX,
        0 <= cut <= records_bytes(records).len(),
    ensures
        spec_read_records(records_bytes(records).take(cut), 0) matches Ok(decoded) ==> exists|
            n: int,
        |
            0 <= n <= records.len() && cut == records_bytes(#[trigger] records.take(n)).len()
                && decoded.len() == n,
{
    assert(records.take(0) =~= Seq::<Record>::empty());
    lemma_cut_boundaries_from(records, cut, 0);
}

/// The size field is enforced from above: a record whose size field exceeds
/// what is left of the buffer from the start of the record is refused for
/// that reason.
pub proof fn oversized_record(buf: Seq<u8>, pos: int, r: Record, size: i32)
    requires
        holds_at(buf, pos, with_size(r.bytes(), size)),
        size > buf.len() - pos,
    ensures
        spec_parse_record(buf, pos) == Err::<(Record, nat), DmapError>(
            DmapError::Message(Fault::RecordSizeExceedsBuffer),
        ),
{
    lemma_header_fields(buf, pos, r, size);
    reveal(spec_parse_record);
    reveal(spec_read_header);
}

/// The size field is enforced from below: a portable record whose size field
/// is lowered, but not so far that another check on the size fails before
/// the entries are read, is refused at its end, because it took more bytes
/// than that size.
#[verifier::rlimit(50)]
pub proof fn undersized_record(buf: Seq<u8>, pos: int, r: Record, size: i32)
    requires
        r.portable(),
        holds_at(buf, pos, with_size(r.bytes(), size)),
        0 < size < r.bytes().len(),
        r.scalar_count + r.array_count <= size,
        forall|i: int|
            0 <= i < r.array_order.len() ==> r.arrays[#[trigger] r.array_order[i]].fits(
                size as int,
            ),
    ensures
        spec_parse_record(buf, pos) == Err::<(Record, nat), DmapError>(
            DmapError::Message(Fault::RecordSizeMismatch),
        ),
{
    let n = r.scalar_order.len();
    let m = r.array_order.len();
    lemma_header_fields(buf, pos, r, size);
    let start = pos + HEADER_BYTES;
    lemma_holds_split(buf, start, r.scalar_bytes(n), r.array_bytes(m));
    lemma_scalars_round_trip(buf, start, r, n);
    lemma_arrays_round_trip(buf, start + r.scalar_bytes(n).len(), r, m, size);
    reveal(spec_parse_record);
    reveal(spec_read_header);
}

/// The size field is enforced from below: a portable record whose size field
/// is lowered is refused for a disagreement between its size and its
/// contents, whatever the lower size is.
#[verifier::rlimit(50)]
pub proof fn lowered_size_refused(buf: Seq<u8>, pos: int, r: Record, size: i32)
    requires
        r.portable(),
        holds_at(buf, pos, with_size(r.bytes(), size)),
        size < r.bytes().len(),
    ensures
        spec_parse_record(buf, pos) matches Err(e) && e.spec_fault().spec_kind()
            == ErrorKind::SizeIntegrity,
{
    let n = r.scalar_order.len();
    let m = r.array_order.len();
    lemma_header_fields(buf, pos, r, size);
    let start = pos + HEADER_BYTES;
    lemma_holds_split(buf, start, r.scalar_bytes(n), r.array_bytes(m));
    lemma_scalars_round_trip(buf, start, r, n);
    lemma_arrays_outcome(buf, start + r.scalar_bytes(n).len(), r, m, size);
    reveal(spec_parse_record);
    reveal(spec_read_header);
}

/// Array bounds are enforced: an array that decodes within a record of
/// `record_size` bytes is well-formed and has at least one dimension; the
/// number of its dimensions, each of them, the number of its elements and
/// the bytes they take at their declared width are none above `record_size`,
/// whatever the buffer holds.
pub proof fn array_bound_enforced(buf: Seq<u8>, pos: int, record_size: i32)
    ensures
        spec_parse_array(buf, pos, record_size) matches Ok(((_, a), _)) ==> a.well_formed()
            && a.fits(record_size as int) && a.dimensions.len() >= 1,
{
    lemma_array_sound(buf, pos, record_size);
}

/// What the decoder hands back is sound: in a record that decodes, each
/// count is the length of its list of names and at least one, the maps hold
/// the listed names and no others, and every array is well-formed and within
/// the bounds of the bytes that the record took, which are within the
/// buffer.
#[verifier::rlimit(50)]
pub proof fn decoded_record_sound(buf: Seq<u8>, pos: int)
    ensures
        spec_parse_record(buf, pos) matches Ok((r, used)) ==> {
            &&& 0 <= pos
            &&& 0 < used
            &&& pos + used <= buf.len()
            &&& r.scalar_count == r.scalar_order.len()
            &&& r.array_count == r.array_order.len()
            &&& r.scalar_count >= 1
            &&& r.array_count >= 1
            &&& r.complete()
            &&& r.listed() == r
            &&& forall|name: Seq<char>| #[trigger]
                r.arrays.contains_key(name) ==> r.arrays[name].well_formed()
                    && r.arrays[name].fits(used as int)
        },
{
    reveal(spec_parse_record);
    reveal(spec_read_header);
    match spec_read_header(buf, pos) {
        Ok(header) => {
            lemma_scalars_sound(buf, pos + HEADER_BYTES, header.scalar_count as nat);
            match spec_parse_scalars(buf, pos + HEADER_BYTES, header.scalar_count as nat) {
                Ok((scalars, used)) => {
                    lemma_arrays_sound(
                        buf,
                        pos + HEADER_BYTES + used,
                        header.array_count as nat,
                        header.size,
                    );
                    match spec_parse_arrays(
                        buf,
                        pos + HEADER_BYTES + used,
                        header.array_count as nat,
                        header.size,
                    ) {
                        Ok((arrays, more)) => {
                            if HEADER_BYTES + used + more == header.size {
                                let r = spec_parse_record(buf, pos)->Ok_0.0;
                                lemma_entries_map(scalars);
                                lemma_entries_map(arrays);
                                assert(r.scalars.restrict(r.scalar_order.to_set()) =~= r.scalars);
                                assert(r.arrays.restrict(r.array_order.to_set()) =~= r.arrays);
                                assert forall|i: int|
                                    0 <= i < r.scalar_order.len() implies r.scalars.contains_key(
                                    #[trigger] r.scalar_order[i],
                                ) by {
                                    assert(r.scalar_order.to_set().contains(r.scalar_order[i]));
                                }
                                assert forall|i: int|
                                    0 <= i < r.array_order.len() implies r.arrays.contains_key(
                                    #[trigger] r.array_order[i],
                                ) by {
                                    assert(r.array_order.to_set().contains(r.array_order[i]));
                                }
                                assert forall|name: Seq<char>| #[trigger]
                                    r.arrays.contains_key(name) implies r.arrays[name].well_formed()
                                    && r.arrays[name].fits(header.size as int) by {
                                    let i = choose|i: int|
                                        0 <= i < arrays.len() && #[trigger] arrays[i] == (
                                            name,
                                            entries_map(arrays)[name],
                                        );
                                    assert(arrays[i].1.well_formed());
                                }
                            }
                        },
                        Err(_) => {},
                    }
                },
                Err(_) => {},
            }
        },
        Err(_) => {},
    }
}

} // verus!
