use dmap::{DmapType, NameMap, RawDmapArray, RawDmapRecord, RawDmapScalar};

#[test]
fn string_to_bytes() {
    let s = DmapType::STRING("Test".to_string());
    assert_eq!(s.to_bytes(), vec![84, 101, 115, 116, 0])
}

#[test]
fn int_to_bytes() {
    let i = DmapType::INT(10);
    assert_eq!(i.to_bytes(), vec![10, 0, 0, 0]) // little-endian
}

#[test]
fn scalar_to_bytes() {
    let scalar = RawDmapScalar::new(DmapType::CHAR(10));
    assert_eq!(scalar.to_bytes(), vec![1, 10])
}

#[test]
fn array_to_bytes() {
    let dimensions = vec![3];
    let data = vec![DmapType::CHAR(0), DmapType::CHAR(1), DmapType::CHAR(2)];
    let array = RawDmapArray::new(dimensions, data);
    assert_eq!(array.to_bytes(), vec![1, 1, 0, 0, 0, 3, 0, 0, 0, 0, 1, 2])
}

#[test]
fn record_to_bytes() {
    let scalar = RawDmapScalar::new(DmapType::CHAR(10));
    let mut scalars = NameMap::new();
    scalars.insert("scal".to_string(), scalar);

    let dimensions = vec![3];
    let data = vec![DmapType::CHAR(0), DmapType::CHAR(1), DmapType::CHAR(2)];
    let array = RawDmapArray::new(dimensions, data);
    let mut arrays = NameMap::new();
    arrays.insert("arr".to_string(), array);

    let rec = RawDmapRecord {
        num_scalars: 1,
        num_arrays: 1,
        scalar_list: vec!["scal".to_string()],
        array_list: vec!["arr".to_string()],
        scalars,
        arrays,
    };

    assert_eq!(
        rec.to_bytes(),
        vec![
            1, 0, 1, 0, 39, 0, 0, 0, 1, 0, 0, 0, 1, 0, 0, 0, 115, 99, 97, 108, 0, 1, 10, 97, 114,
            114, 0, 1, 1, 0, 0, 0, 3, 0, 0, 0, 0, 1, 2
        ]
    )
}

#[test]
fn nested_marker_has_no_bytes() {
    assert_eq!(DmapType::DMAP.to_bytes(), Vec::<u8>::new());
}

#[test]
fn char_to_bytes_is_twos_complement() {
    assert_eq!(DmapType::CHAR(-1).to_bytes(), vec![255]);
    assert_eq!(DmapType::CHAR(i8::MIN).to_bytes(), vec![128]);
    assert_eq!(DmapType::UCHAR(200).to_bytes(), vec![200]);
}

#[test]
fn short_to_bytes_is_little_endian() {
    assert_eq!(DmapType::SHORT(0x0102).to_bytes(), vec![2, 1]);
    assert_eq!(DmapType::SHORT(-2).to_bytes(), vec![254, 255]);
    assert_eq!(DmapType::USHORT(0xfffe).to_bytes(), vec![254, 255]);
}

#[test]
fn int_to_bytes_is_little_endian() {
    assert_eq!(DmapType::INT(0x01020304).to_bytes(), vec![4, 3, 2, 1]);
    assert_eq!(DmapType::INT(-1).to_bytes(), vec![255, 255, 255, 255]);
    assert_eq!(DmapType::INT(i32::MIN).to_bytes(), vec![0, 0, 0, 128]);
    assert_eq!(DmapType::UINT(0xdeadbeef).to_bytes(), vec![0xef, 0xbe, 0xad, 0xde]);
}

#[test]
fn long_to_bytes_is_little_endian() {
    assert_eq!(
        DmapType::LONG(0x0102030405060708).to_bytes(),
        vec![8, 7, 6, 5, 4, 3, 2, 1]
    );
    assert_eq!(DmapType::LONG(-2).to_bytes(), vec![254, 255, 255, 255, 255, 255, 255, 255]);
    assert_eq!(
        DmapType::ULONG(u64::MAX - 1).to_bytes(),
        vec![254, 255, 255, 255, 255, 255, 255, 255]
    );
}

#[test]
fn float_to_bytes_is_the_bit_pattern() {
    assert_eq!(DmapType::FLOAT(1.5f32.to_bits()).to_bytes(), 1.5f32.to_le_bytes().to_vec());
    assert_eq!(DmapType::FLOAT(1.0f32.to_bits()).to_bytes(), vec![0, 0, 128, 63]);
    assert_eq!(DmapType::DOUBLE((-2.25f64).to_bits()).to_bytes(), (-2.25f64).to_le_bytes().to_vec());
    assert_eq!(DmapType::DOUBLE(1.0f64.to_bits()).to_bytes(), vec![0, 0, 0, 0, 0, 0, 240, 63]);
}

#[test]
fn string_to_bytes_appends_the_terminator_whatever_the_text() {
    assert_eq!(DmapType::STRING(String::new()).to_bytes(), vec![0]);
    assert_eq!(DmapType::STRING("a\0".to_string()).to_bytes(), vec![97, 0, 0]);
    assert_eq!(DmapType::STRING("é".to_string()).to_bytes(), vec![0xc3, 0xa9, 0]);
}

#[test]
fn keys_and_widths_follow_the_table() {
    let table: Vec<(DmapType, i8, u64)> = vec![
        (DmapType::DMAP, 0, 0),
        (DmapType::CHAR(5), 1, 1),
        (DmapType::SHORT(5), 2, 2),
        (DmapType::INT(5), 3, 4),
        (DmapType::FLOAT(5), 4, 4),
        (DmapType::DOUBLE(5), 8, 8),
        (DmapType::STRING("x".to_string()), 9, 0),
        (DmapType::LONG(5), 10, 8),
        (DmapType::UCHAR(5), 16, 1),
        (DmapType::USHORT(5), 17, 2),
        (DmapType::UINT(5), 18, 4),
        (DmapType::ULONG(5), 19, 8),
    ];
    for (value, key, width) in table {
        assert_eq!(value.get_key(), key);
        assert_eq!(value.get_num_bytes(), width);
        let shape = DmapType::get_type_from_key(key).unwrap();
        assert_eq!(shape.get_key(), key);
        assert_eq!(shape.get_num_bytes(), width);
        assert!(DmapType::is_key(key));
    }
    assert_eq!(DmapType::all_keys(), vec![0, 1, 2, 3, 4, 8, 9, 10, 16, 17, 18, 19]);
}

#[test]
fn shapes_are_zero_values() {
    assert_eq!(DmapType::get_type_from_key(3).unwrap(), DmapType::INT(0));
    assert_eq!(DmapType::get_type_from_key(9).unwrap(), DmapType::STRING(String::new()));
    assert_eq!(DmapType::get_type_from_key(0).unwrap(), DmapType::DMAP);
}

#[test]
fn keys_outside_the_table_are_refused() {
    for key in i8::MIN..=i8::MAX {
        let in_table = [0, 1, 2, 3, 4, 8, 9, 10, 16, 17, 18, 19].contains(&key);
        assert_eq!(DmapType::is_key(key), in_table);
        match DmapType::get_type_from_key(key) {
            Ok(shape) => {
                assert!(in_table);
                assert_eq!(shape.get_key(), key);
            }
            Err(e) => {
                assert!(!in_table);
                assert_eq!(e.fault(), dmap::Fault::InvalidKey);
                assert_eq!(e.kind(), dmap::ErrorKind::BadTag);
                assert!(matches!(e, dmap::DmapError::BadVal(_, DmapType::CHAR(k)) if k == key));
            }
        }
    }
}

#[test]
fn scalar_of_text_to_bytes() {
    let scalar = RawDmapScalar::new(DmapType::STRING("ab".to_string()));
    assert_eq!(scalar.to_bytes(), vec![9, 97, 98, 0]);
}

#[test]
fn array_takes_its_tag_from_the_first_element() {
    let array = RawDmapArray::new(
        vec![2],
        vec![DmapType::SHORT(1), DmapType::CHAR(2)],
    );
    assert_eq!(array.to_bytes(), vec![2, 1, 0, 0, 0, 2, 0, 0, 0, 1, 0, 2]);
}

#[test]
fn array_of_two_dimensions_to_bytes() {
    let array = RawDmapArray::new(
        vec![2, 3],
        vec![
            DmapType::UCHAR(1),
            DmapType::UCHAR(2),
            DmapType::UCHAR(3),
            DmapType::UCHAR(4),
            DmapType::UCHAR(5),
            DmapType::UCHAR(6),
        ],
    );
    assert_eq!(
        array.to_bytes(),
        vec![16, 2, 0, 0, 0, 2, 0, 0, 0, 3, 0, 0, 0, 1, 2, 3, 4, 5, 6]
    );
}

#[test]
fn record_writes_its_counts_as_they_stand() {
    let mut scalars = NameMap::new();
    scalars.insert("a".to_string(), RawDmapScalar::new(DmapType::UCHAR(7)));
    let rec = RawDmapRecord {
        num_scalars: 5,
        num_arrays: -3,
        scalar_list: vec!["a".to_string()],
        array_list: vec![],
        scalars,
        arrays: NameMap::new(),
    };
    assert_eq!(
        rec.to_bytes(),
        vec![1, 0, 1, 0, 20, 0, 0, 0, 5, 0, 0, 0, 253, 255, 255, 255, 97, 0, 16, 7]
    );
}

#[test]
fn records_are_written_one_after_the_other() {
    let mut scalars = NameMap::new();
    scalars.insert("a".to_string(), RawDmapScalar::new(DmapType::UCHAR(7)));
    let rec = RawDmapRecord {
        num_scalars: 1,
        num_arrays: 0,
        scalar_list: vec!["a".to_string()],
        array_list: vec![],
        scalars,
        arrays: NameMap::new(),
    };
    let one = rec.to_bytes();
    let mut twice = one.clone();
    twice.extend_from_slice(&one);
    assert_eq!(dmap::write_records(&vec![rec.clone(), rec]), twice);
    assert_eq!(dmap::write_records(&vec![]), Vec::<u8>::new());
}
