use dmap::{
    parse_record, read_records, write_records, DmapType, ErrorKind, Fault, NameMap, RawDmapArray,
    RawDmapRecord, RawDmapScalar,
};

fn record(scalars: Vec<(&str, DmapType)>, arrays: Vec<(&str, Vec<i32>, Vec<DmapType>)>) -> RawDmapRecord {
    let mut scalar_list = vec![];
    let mut scalar_map = NameMap::new();
    for (name, value) in scalars {
        scalar_list.push(name.to_string());
        scalar_map.insert(name.to_string(), RawDmapScalar::new(value));
    }
    let mut array_list = vec![];
    let mut array_map = NameMap::new();
    for (name, dimensions, data) in arrays {
        array_list.push(name.to_string());
        array_map.insert(name.to_string(), RawDmapArray::new(dimensions, data));
    }
    RawDmapRecord {
        num_scalars: scalar_list.len() as i32,
        num_arrays: array_list.len() as i32,
        scalar_list,
        array_list,
        scalars: scalar_map,
        arrays: array_map,
    }
}

fn rich() -> RawDmapRecord {
    record(
        vec![
            ("c", DmapType::CHAR(-7)),
            ("s", DmapType::SHORT(-300)),
            ("i", DmapType::INT(i32::MIN)),
            ("f", DmapType::FLOAT(3.25f32.to_bits())),
            ("d", DmapType::DOUBLE(f64::NAN.to_bits())),
            ("t", DmapType::STRING("grüße".to_string())),
            ("l", DmapType::LONG(i64::MAX)),
            ("uc", DmapType::UCHAR(255)),
            ("us", DmapType::USHORT(65535)),
            ("ui", DmapType::UINT(u32::MAX)),
            ("ul", DmapType::ULONG(u64::MAX)),
            ("empty", DmapType::STRING(String::new())),
        ],
        vec![
            ("grid", vec![2, 3], (0..6).map(|x| DmapType::INT(x * 1000 - 7)).collect()),
            (
                "words",
                vec![3],
                vec![
                    DmapType::STRING("a".to_string()),
                    DmapType::STRING(String::new()),
                    DmapType::STRING("bc".to_string()),
                ],
            ),
            ("cube", vec![2, 2, 2], (0..8).map(|x| DmapType::DOUBLE((x as f64 / 3.0).to_bits())).collect()),
        ],
    )
}

fn small() -> RawDmapRecord {
    record(
        vec![("scal", DmapType::CHAR(10))],
        vec![("arr", vec![3], vec![DmapType::CHAR(0), DmapType::CHAR(1), DmapType::CHAR(2)])],
    )
}

#[test]
fn round_trip_of_one_record() {
    let rec = rich();
    let bytes = rec.to_bytes();
    let (decoded, end) = parse_record(&bytes, 0).unwrap();
    assert_eq!(end, bytes.len());
    assert_eq!(decoded, rec);
    assert_eq!(decoded.scalar_list, rec.scalar_list);
    assert_eq!(decoded.array_list, rec.array_list);
    for name in &rec.scalar_list {
        assert_eq!(decoded.scalars.get(name), rec.scalars.get(name));
    }
    for name in &rec.array_list {
        let a = decoded.arrays.get(name).unwrap();
        let b = rec.arrays.get(name).unwrap();
        assert_eq!(a.dimensions, b.dimensions);
        assert_eq!(a.data, b.data);
    }
    assert_eq!(decoded.to_bytes(), bytes);
}

#[test]
fn round_trip_of_a_stream() {
    let records = vec![small(), rich(), small()];
    let bytes = write_records(&records);
    let decoded = read_records(&bytes).unwrap();
    assert_eq!(decoded, records);
    assert_eq!(write_records(&decoded), bytes);
}

#[test]
fn round_trip_drops_entries_that_are_not_listed() {
    let mut rec = small();
    rec.scalars.insert("stray".to_string(), RawDmapScalar::new(DmapType::INT(1)));
    let decoded = read_records(&rec.to_bytes()).unwrap();
    assert_eq!(decoded, vec![rec]);
    assert!(!decoded[0].scalars.contains_key(&"stray".to_string()));
}

#[test]
fn round_trip_fails_on_what_the_wire_cannot_carry() {
    let nested = record(vec![("n", DmapType::DMAP)], vec![("a", vec![1], vec![DmapType::CHAR(1)])]);
    assert!(read_records(&nested.to_bytes()).is_err());
    let no_arrays = record(vec![("n", DmapType::CHAR(1))], vec![]);
    assert_eq!(
        read_records(&no_arrays.to_bytes()).unwrap_err().fault(),
        Fault::ArrayCountNotPositive
    );
    let zero_in_name = record(
        vec![("a\0b", DmapType::CHAR(1))],
        vec![("a", vec![1], vec![DmapType::CHAR(1)])],
    );
    assert!(read_records(&zero_in_name.to_bytes()).is_err());
}

#[test]
fn truncation_at_every_offset_is_refused() {
    let bytes = rich().to_bytes();
    for cut in 1..bytes.len() {
        let e = read_records(&bytes[..cut]).unwrap_err();
        let expected = if cut < 8 { Fault::BufferTooShort } else { Fault::RecordSizeExceedsBuffer };
        assert_eq!(e.fault(), expected, "cut at {}", cut);
        assert!(e.kind() == ErrorKind::Bounds || e.kind() == ErrorKind::SizeIntegrity);
    }
}

#[test]
fn truncation_of_a_stream_gives_whole_records_or_nothing() {
    let records = vec![small(), rich(), small()];
    let bytes = write_records(&records);
    let first = small().to_bytes().len();
    let second = first + rich().to_bytes().len();
    for cut in 0..=bytes.len() {
        let result = read_records(&bytes[..cut]);
        if cut == 0 {
            assert_eq!(result.unwrap(), vec![]);
        } else if cut == first {
            assert_eq!(result.unwrap(), vec![small()]);
        } else if cut == second {
            assert_eq!(result.unwrap(), vec![small(), rich()]);
        } else if cut == bytes.len() {
            assert_eq!(result.unwrap(), records);
        } else {
            let kind = result.unwrap_err().kind();
            assert!(kind == ErrorKind::Bounds || kind == ErrorKind::SizeIntegrity);
        }
    }
}

#[test]
fn size_field_above_the_buffer_is_refused() {
    let mut bytes = rich().to_bytes();
    let size = bytes.len() as i32;
    for altered in [size + 1, size + 1000, i32::MAX] {
        bytes[4..8].copy_from_slice(&altered.to_le_bytes());
        assert_eq!(read_records(&bytes).unwrap_err().fault(), Fault::RecordSizeExceedsBuffer);
    }
}

#[test]
fn size_field_below_what_was_read_is_refused() {
    let mut bytes = rich().to_bytes();
    let size = bytes.len() as i32;
    for altered in [size - 1, size - 10, 64] {
        bytes[4..8].copy_from_slice(&altered.to_le_bytes());
        assert_eq!(read_records(&bytes).unwrap_err().fault(), Fault::RecordSizeMismatch);
    }
    bytes[4..8].copy_from_slice(&20i32.to_le_bytes());
    let e = read_records(&bytes).unwrap_err();
    assert_eq!(e.fault(), Fault::ArrayExceedsSize);
    assert_eq!(e.kind(), ErrorKind::SizeIntegrity);
    bytes[4..8].copy_from_slice(&14i32.to_le_bytes());
    assert_eq!(read_records(&bytes).unwrap_err().fault(), Fault::ElementCountExceedsSize);
}

#[test]
fn equality_compares_what_both_have() {
    let a = RawDmapArray::new(vec![3], vec![DmapType::CHAR(0), DmapType::CHAR(1), DmapType::CHAR(2)]);
    let shorter = RawDmapArray::new(vec![3], vec![DmapType::CHAR(0), DmapType::CHAR(1)]);
    let other = RawDmapArray::new(vec![3], vec![DmapType::CHAR(0), DmapType::CHAR(9)]);
    let reshaped = RawDmapArray::new(vec![1, 3], vec![DmapType::CHAR(0), DmapType::CHAR(1)]);
    assert_eq!(a, shorter);
    assert_ne!(a, other);
    assert_ne!(a, reshaped);
    assert_eq!(a, RawDmapArray::new(vec![], vec![]));

    let rec = small();
    let mut longer = small();
    longer.scalar_list.push("more".to_string());
    longer.scalars.insert("more".to_string(), RawDmapScalar::new(DmapType::INT(5)));
    assert_eq!(rec, longer);
    longer.num_scalars = 2;
    assert_ne!(rec, longer);
    let mut changed = small();
    changed.scalars.insert("scal".to_string(), RawDmapScalar::new(DmapType::CHAR(11)));
    assert_ne!(rec, changed);
    let mut renamed = small();
    renamed.array_list[0] = "other".to_string();
    assert_ne!(rec, renamed);
    let mut missing = small();
    missing.arrays = NameMap::new();
    assert_ne!(rec, missing);
}

#[test]
fn values_are_equal_when_their_bits_are() {
    assert_eq!(DmapType::FLOAT(1.5f32.to_bits()), DmapType::FLOAT(1.5f32.to_bits()));
    assert_ne!(DmapType::FLOAT(0.0f32.to_bits()), DmapType::FLOAT((-0.0f32).to_bits()));
    assert_ne!(DmapType::INT(1), DmapType::UINT(1));
    assert_ne!(DmapType::FLOAT(7), DmapType::UINT(7));
    assert_eq!(DmapType::STRING("a".to_string()), DmapType::STRING("a".to_string()));
    assert_ne!(DmapType::STRING("a".to_string()), DmapType::STRING("b".to_string()));
    assert_eq!(DmapType::DMAP, DmapType::DMAP);
}

#[test]
fn name_map_stores_one_entry_for_each_name() {
    let mut map: NameMap<i32> = NameMap::new();
    assert_eq!(map.get(&"a".to_string()), None);
    map.insert("a".to_string(), 1);
    map.insert("b".to_string(), 2);
    map.insert("a".to_string(), 3);
    assert_eq!(map.get(&"a".to_string()), Some(&3));
    assert_eq!(map.get(&"b".to_string()), Some(&2));
    assert!(map.contains_key(&"a".to_string()));
    assert!(!map.contains_key(&"c".to_string()));
    let copy = map.clone();
    assert_eq!(copy.get(&"a".to_string()), Some(&3));
    assert_eq!(copy.get(&"b".to_string()), Some(&2));
}

#[test]
fn name_map_counts_its_entries() {
    let mut map: NameMap<i32> = NameMap::new();
    assert!(map.is_empty());
    assert_eq!(map.len(), 0);
    map.insert("a".to_string(), 1);
    map.insert("b".to_string(), 2);
    map.insert("a".to_string(), 3);
    assert!(!map.is_empty());
    assert_eq!(map.len(), 2);
}

#[test]
fn records_that_cannot_be_written_are_told_apart() {
    let good = small();
    assert!(good.can_write());
    assert_eq!(good.try_to_bytes(), Some(good.to_bytes()));

    let mut unlisted = small();
    unlisted.scalar_list.push("ghost".to_string());
    assert!(!unlisted.can_write());
    assert_eq!(unlisted.try_to_bytes(), None);

    let mut no_array = small();
    no_array.array_list.push("ghost".to_string());
    assert!(!no_array.can_write());
    assert_eq!(no_array.try_to_bytes(), None);

    let mut hollow = small();
    hollow.arrays.insert("arr".to_string(), RawDmapArray::new(vec![3], vec![]));
    assert!(!hollow.can_write());
    assert_eq!(hollow.try_to_bytes(), None);
    assert!(!RawDmapArray::new(vec![3], vec![]).can_encode());
    assert!(RawDmapArray::new(vec![], vec![DmapType::CHAR(1)]).can_encode());

    assert_eq!(
        dmap::try_write_records(&vec![small(), rich()]),
        Some(write_records(&vec![small(), rich()]))
    );
    assert_eq!(dmap::try_write_records(&vec![small(), hollow]), None);
    assert_eq!(dmap::try_write_records(&vec![]), Some(vec![]));
}

#[test]
fn what_decodes_is_well_formed() {
    let (rec, _) = parse_record(&rich().to_bytes(), 0).unwrap();
    assert_eq!(rec.num_scalars as usize, rec.scalar_list.len());
    assert_eq!(rec.num_arrays as usize, rec.array_list.len());
    assert_eq!(rec.scalars.len(), rec.scalar_list.len());
    assert_eq!(rec.arrays.len(), rec.array_list.len());
    for name in &rec.array_list {
        let array = rec.arrays.get(name).unwrap();
        let product: i32 = array.dimensions.iter().product();
        assert_eq!(array.data.len() as i32, product);
        let key = array.data[0].get_key();
        assert!(array.data.iter().all(|v| v.get_key() == key));
    }
    assert!(rec.can_write());
}

#[test]
fn a_cut_stream_decodes_at_record_ends_only() {
    // records that the wire cannot give back: an embedded-record marker, a
    // name with a zero character, no arrays
    let marker = record(
        vec![("n", DmapType::DMAP), ("m", DmapType::INT(7))],
        vec![("a", vec![1], vec![DmapType::CHAR(1)])],
    );
    let zero = record(
        vec![("a\0\u{1}", DmapType::CHAR(1))],
        vec![("a", vec![2], vec![DmapType::CHAR(1), DmapType::CHAR(2)])],
    );
    let bare = record(vec![("n", DmapType::CHAR(1))], vec![]);
    for records in [
        vec![small(), marker.clone(), small()],
        vec![zero.clone(), small()],
        vec![small(), bare.clone(), rich()],
        vec![rich(), zero, marker, bare],
    ] {
        let bytes = write_records(&records);
        let mut ends = vec![0];
        for r in &records {
            ends.push(ends[ends.len() - 1] + r.to_bytes().len());
        }
        for cut in 0..=bytes.len() {
            if let Ok(decoded) = read_records(&bytes[..cut]) {
                assert_eq!(ends.get(decoded.len()), Some(&cut), "cut at {}", cut);
            }
        }
    }
}
