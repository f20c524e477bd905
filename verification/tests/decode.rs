use dmap::{
    parse_array, parse_record, parse_scalar, read_data, read_records, DmapError, DmapType,
    ErrorKind, Fault, NameMap, RawDmapArray, RawDmapRecord, RawDmapScalar,
};

const RECORD: [u8; 39] = [
    1, 0, 1, 0, 39, 0, 0, 0, 1, 0, 0, 0, 1, 0, 0, 0, 115, 99, 97, 108, 0, 1, 10, 97, 114, 114, 0,
    1, 1, 0, 0, 0, 3, 0, 0, 0, 0, 1, 2,
];

fn sample() -> RawDmapRecord {
    let mut scalars = NameMap::new();
    scalars.insert("scal".to_string(), RawDmapScalar::new(DmapType::CHAR(10)));
    let mut arrays = NameMap::new();
    arrays.insert(
        "arr".to_string(),
        RawDmapArray::new(
            vec![3],
            vec![DmapType::CHAR(0), DmapType::CHAR(1), DmapType::CHAR(2)],
        ),
    );
    RawDmapRecord {
        num_scalars: 1,
        num_arrays: 1,
        scalar_list: vec!["scal".to_string()],
        array_list: vec!["arr".to_string()],
        scalars,
        arrays,
    }
}

fn fault_of<T: std::fmt::Debug>(r: Result<T, DmapError>) -> Fault {
    match r {
        Ok(v) => panic!("decoded {:?}", v),
        Err(e) => e.fault(),
    }
}

#[test]
fn record_from_bytes() {
    let (rec, end) = parse_record(&RECORD, 0).unwrap();
    assert_eq!(end, 39);
    assert_eq!(rec.num_scalars, 1);
    assert_eq!(rec.num_arrays, 1);
    assert_eq!(rec.scalar_list, vec!["scal".to_string()]);
    assert_eq!(rec.array_list, vec!["arr".to_string()]);
    assert_eq!(
        rec.scalars.get(&"scal".to_string()),
        Some(&RawDmapScalar::new(DmapType::CHAR(10)))
    );
    let arr = rec.arrays.get(&"arr".to_string()).unwrap();
    assert_eq!(arr.dimensions, vec![3]);
    assert_eq!(arr.data, vec![DmapType::CHAR(0), DmapType::CHAR(1), DmapType::CHAR(2)]);
    assert!(!rec.scalars.contains_key(&"arr".to_string()));
    assert_eq!(rec, sample());
}

#[test]
fn records_from_bytes() {
    assert_eq!(read_records(&RECORD).unwrap(), vec![sample()]);
    let mut twice = RECORD.to_vec();
    twice.extend_from_slice(&RECORD);
    assert_eq!(read_records(&twice).unwrap(), vec![sample(), sample()]);
    assert_eq!(read_records(&[]).unwrap(), vec![]);
}

#[test]
fn one_bad_record_fails_the_batch() {
    let mut stream = RECORD.to_vec();
    stream.extend_from_slice(&RECORD);
    stream.push(0);
    assert_eq!(fault_of(read_records(&stream)), Fault::BufferTooShort);
}

#[test]
fn record_in_the_middle_of_a_buffer() {
    let mut stream = vec![9, 9, 9];
    stream.extend_from_slice(&RECORD);
    stream.extend_from_slice(&[7, 7]);
    let (rec, end) = parse_record(&stream, 3).unwrap();
    assert_eq!(end, 42);
    assert_eq!(rec, sample());
}

#[test]
fn read_data_of_each_type() {
    let buffer: Vec<u8> = vec![0xff, 0xfe, 0xfd, 0xfc, 0xfb, 0xfa, 0xf9, 0x80, 0x01];
    let read = |at: usize, shape: DmapType| read_data(&buffer, at, &shape).unwrap();
    assert_eq!(read(0, DmapType::CHAR(0)), (DmapType::CHAR(-1), 1));
    assert_eq!(read(1, DmapType::UCHAR(0)), (DmapType::UCHAR(0xfe), 2));
    assert_eq!(read(0, DmapType::SHORT(0)), (DmapType::SHORT(-257), 2));
    assert_eq!(read(1, DmapType::USHORT(0)), (DmapType::USHORT(0xfdfe), 3));
    assert_eq!(read(1, DmapType::INT(0)), (DmapType::INT(-67305986), 5));
    assert_eq!(read(1, DmapType::UINT(0)), (DmapType::UINT(0xfbfcfdfe), 5));
    assert_eq!(
        read(0, DmapType::LONG(0)),
        (DmapType::LONG(i64::from_le_bytes([0xff, 0xfe, 0xfd, 0xfc, 0xfb, 0xfa, 0xf9, 0x80])), 8)
    );
    assert_eq!(read(1, DmapType::ULONG(0)), (DmapType::ULONG(0x0180f9fafbfcfdfe), 9));
    assert_eq!(read(1, DmapType::FLOAT(0)), (DmapType::FLOAT(0xfbfcfdfe), 5));
    assert_eq!(read(1, DmapType::DOUBLE(0)), (DmapType::DOUBLE(0x0180f9fafbfcfdfe), 9));
}

#[test]
fn read_data_of_floats_gives_the_numbers() {
    let mut buffer = 1.5f32.to_le_bytes().to_vec();
    buffer.extend_from_slice(&(-0.125f64).to_le_bytes());
    match read_data(&buffer, 0, &DmapType::FLOAT(0)).unwrap() {
        (DmapType::FLOAT(bits), 4) => assert_eq!(f32::from_bits(bits), 1.5),
        other => panic!("{:?}", other),
    }
    match read_data(&buffer, 4, &DmapType::DOUBLE(0)).unwrap() {
        (DmapType::DOUBLE(bits), 12) => assert_eq!(f64::from_bits(bits), -0.125),
        other => panic!("{:?}", other),
    }
}

#[test]
fn read_data_at_odd_offsets() {
    let mut buffer = vec![0u8];
    buffer.extend_from_slice(&0x1234u16.to_le_bytes());
    buffer.extend_from_slice(&0x12345678u32.to_le_bytes());
    buffer.extend_from_slice(&(-5i64).to_le_bytes());
    buffer.extend_from_slice(&u64::MAX.to_le_bytes());
    assert_eq!(
        read_data(&buffer, 1, &DmapType::USHORT(0)).unwrap(),
        (DmapType::USHORT(0x1234), 3)
    );
    assert_eq!(
        read_data(&buffer, 3, &DmapType::UINT(0)).unwrap(),
        (DmapType::UINT(0x12345678), 7)
    );
    assert_eq!(read_data(&buffer, 7, &DmapType::LONG(0)).unwrap(), (DmapType::LONG(-5), 15));
    assert_eq!(
        read_data(&buffer, 15, &DmapType::ULONG(0)).unwrap(),
        (DmapType::ULONG(u64::MAX), 23)
    );
}

#[test]
fn read_data_of_text() {
    let buffer = vec![84, 101, 115, 116, 0, 0xc3, 0xa9, 0, 0];
    let text = DmapType::STRING(String::new());
    assert_eq!(
        read_data(&buffer, 0, &text).unwrap(),
        (DmapType::STRING("Test".to_string()), 5)
    );
    assert_eq!(read_data(&buffer, 5, &text).unwrap(), (DmapType::STRING("é".to_string()), 8));
    assert_eq!(read_data(&buffer, 8, &text).unwrap(), (DmapType::STRING(String::new()), 9));
    assert_eq!(read_data(&buffer, 2, &text).unwrap(), (DmapType::STRING("st".to_string()), 5));
}

#[test]
fn read_data_of_an_embedded_record_takes_its_bytes() {
    let mut buffer = vec![5];
    buffer.extend_from_slice(&RECORD);
    buffer.push(6);
    assert_eq!(read_data(&buffer, 1, &DmapType::DMAP).unwrap(), (DmapType::DMAP, 40));
}

#[test]
fn read_data_out_of_bounds() {
    let buffer = vec![1, 2, 3];
    assert_eq!(fault_of(read_data(&buffer, 4, &DmapType::CHAR(0))), Fault::CursorOutOfBuffer);
    assert_eq!(fault_of(read_data(&buffer, 4, &DmapType::DMAP)), Fault::CursorOutOfBuffer);
    assert_eq!(
        fault_of(read_data(&buffer, 4, &DmapType::STRING(String::new()))),
        Fault::CursorOutOfBuffer
    );
    assert_eq!(fault_of(read_data(&buffer, 3, &DmapType::CHAR(0))), Fault::BufferTooShort);
    assert_eq!(fault_of(read_data(&buffer, 2, &DmapType::SHORT(0))), Fault::BufferTooShort);
    assert_eq!(fault_of(read_data(&buffer, 0, &DmapType::INT(0))), Fault::BufferTooShort);
    assert_eq!(fault_of(read_data(&buffer, 0, &DmapType::DOUBLE(0))), Fault::BufferTooShort);
    assert_eq!(fault_of(read_data(&buffer, 3, &DmapType::DMAP)), Fault::BufferTooShort);
    assert_eq!(read_data(&buffer, 1, &DmapType::SHORT(0)).unwrap(), (DmapType::SHORT(0x0302), 3));
}

#[test]
fn read_data_of_bad_text() {
    let text = DmapType::STRING(String::new());
    assert_eq!(fault_of(read_data(&[97, 98], 0, &text)), Fault::UnterminatedString);
    assert_eq!(fault_of(read_data(&[97, 98], 2, &text)), Fault::UnterminatedString);
    assert_eq!(fault_of(read_data(&[], 0, &text)), Fault::UnterminatedString);
    assert_eq!(fault_of(read_data(&[0xff, 0], 0, &text)), Fault::InvalidString);
    assert_eq!(fault_of(read_data(&[0xc3, 0], 0, &text)), Fault::InvalidString);
}

#[test]
fn faults_have_kinds_and_messages() {
    assert_eq!(Fault::CursorOutOfBuffer.kind(), ErrorKind::Bounds);
    assert_eq!(Fault::BufferTooShort.kind(), ErrorKind::Bounds);
    assert_eq!(Fault::UnterminatedString.kind(), ErrorKind::TextDecode);
    assert_eq!(Fault::InvalidString.kind(), ErrorKind::TextDecode);
    assert_eq!(Fault::InterpretShort.kind(), ErrorKind::Cast);
    assert_eq!(Fault::ScalarTypeCorrupted.kind(), ErrorKind::BadTag);
    assert_eq!(Fault::ArrayTypeCorrupted.kind(), ErrorKind::BadTag);
    assert_eq!(Fault::RecordSizeMismatch.kind(), ErrorKind::SizeIntegrity);
    assert_eq!(Fault::ArrayExceedsSize.kind(), ErrorKind::SizeIntegrity);
    assert_eq!(
        Fault::ElementsExceedSize.message(),
        "PARSE ARRAY: Total array elements > record size."
    );
    let e = read_data(&[], 0, &DmapType::INT(0)).unwrap_err();
    assert_eq!(e.kind(), ErrorKind::Bounds);
    assert_eq!(
        e.message(),
        "READ DATA: Byte offsets into buffer are not properly aligned. Data is likely corrupted"
    );
}

#[test]
fn scalar_from_bytes() {
    let buffer = vec![0, 110, 0, 3, 1, 2, 3, 4, 9];
    let ((name, scalar), end) = parse_scalar(&buffer, 1).unwrap();
    assert_eq!(name, "n");
    assert_eq!(scalar, RawDmapScalar::new(DmapType::INT(0x04030201)));
    assert_eq!(end, 8);
}

#[test]
fn scalar_of_text_from_bytes() {
    let buffer = vec![110, 0, 9, 104, 105, 0];
    let ((name, scalar), end) = parse_scalar(&buffer, 0).unwrap();
    assert_eq!(name, "n");
    assert_eq!(scalar.data, DmapType::STRING("hi".to_string()));
    assert_eq!(end, 6);
}

#[test]
fn scalar_with_an_embedded_record_keeps_the_marker_only() {
    let mut buffer = vec![110, 0, 0];
    buffer.extend_from_slice(&RECORD);
    let ((name, scalar), end) = parse_scalar(&buffer, 0).unwrap();
    assert_eq!(name, "n");
    assert_eq!(scalar.data, DmapType::DMAP);
    assert_eq!(end, 42);
}

#[test]
fn scalar_with_a_bad_tag_carries_the_tag() {
    let e = parse_scalar(&[110, 0, 5, 1], 0).unwrap_err();
    assert_eq!(e.fault(), Fault::ScalarTypeCorrupted);
    assert_eq!(e.kind(), ErrorKind::BadTag);
    assert!(matches!(e, DmapError::BadVal(_, DmapType::CHAR(5))));
    let e = parse_scalar(&[110, 0, 0x80, 1], 0).unwrap_err();
    assert!(matches!(e, DmapError::BadVal(Fault::ScalarTypeCorrupted, DmapType::CHAR(-128))));
}

#[test]
fn scalar_cut_short() {
    assert_eq!(fault_of(parse_scalar(&[110], 0)), Fault::UnterminatedString);
    assert_eq!(fault_of(parse_scalar(&[110, 0], 0)), Fault::BufferTooShort);
    assert_eq!(fault_of(parse_scalar(&[110, 0, 3, 1, 2], 0)), Fault::BufferTooShort);
    assert_eq!(fault_of(parse_scalar(&[110, 0, 0, 1, 2], 0)), Fault::BufferTooShort);
}

fn array_bytes(tag: u8, dims: &[i32], elements: &[u8]) -> Vec<u8> {
    let mut bytes = vec![97, 0, tag];
    bytes.extend_from_slice(&(dims.len() as i32).to_le_bytes());
    for d in dims {
        bytes.extend_from_slice(&d.to_le_bytes());
    }
    bytes.extend_from_slice(elements);
    bytes
}

#[test]
fn array_from_bytes() {
    let buffer = array_bytes(2, &[2, 2], &[1, 0, 2, 0, 3, 0, 255, 255]);
    let ((name, array), end) = parse_array(&buffer, 0, 100).unwrap();
    assert_eq!(name, "a");
    assert_eq!(array.dimensions, vec![2, 2]);
    assert_eq!(
        array.data,
        vec![DmapType::SHORT(1), DmapType::SHORT(2), DmapType::SHORT(3), DmapType::SHORT(-1)]
    );
    assert_eq!(end, buffer.len());
}

#[test]
fn array_of_text_from_bytes() {
    let buffer = array_bytes(9, &[2], &[104, 105, 0, 0]);
    let ((_, array), end) = parse_array(&buffer, 0, 100).unwrap();
    assert_eq!(
        array.data,
        vec![DmapType::STRING("hi".to_string()), DmapType::STRING(String::new())]
    );
    assert_eq!(end, buffer.len());
}

#[test]
fn array_of_embedded_records_from_bytes() {
    let mut elements = RECORD.to_vec();
    elements.extend_from_slice(&RECORD);
    let buffer = array_bytes(0, &[2], &elements);
    let ((_, array), end) = parse_array(&buffer, 0, 100).unwrap();
    assert_eq!(array.data, vec![DmapType::DMAP, DmapType::DMAP]);
    assert_eq!(end, buffer.len());
}

#[test]
fn array_with_a_bad_tag() {
    let buffer = array_bytes(7, &[1], &[1]);
    let e = parse_array(&buffer, 0, 100).unwrap_err();
    assert!(matches!(e, DmapError::BadVal(Fault::ArrayTypeCorrupted, DmapType::CHAR(7))));
    assert_eq!(e.kind(), ErrorKind::BadTag);
    assert_eq!(e.message(), "PARSE ARRAY: Data type is corrupted. Record is likely corrupted");
    let e = parse_array(&[97, 0, 5, 1, 0, 0, 0, 1, 0, 0, 0, 0], 0, 100).unwrap_err();
    assert!(matches!(e, DmapError::BadVal(Fault::ArrayTypeCorrupted, DmapType::CHAR(5))));
    let e = parse_array(&[97, 0, 0xff, 1, 0, 0, 0, 1, 0, 0, 0, 0], 0, 100).unwrap_err();
    assert!(matches!(e, DmapError::BadVal(Fault::ArrayTypeCorrupted, DmapType::CHAR(-1))));
}

#[test]
fn array_dimension_count_is_checked() {
    let buffer = array_bytes(1, &[1, 1, 1], &[1]);
    assert_eq!(fault_of(parse_array(&buffer, 0, 2)), Fault::DimensionCountExceedsSize);
    assert!(parse_array(&buffer, 0, 3).is_ok());
    let mut none = vec![97, 0, 1];
    none.extend_from_slice(&0i32.to_le_bytes());
    assert_eq!(fault_of(parse_array(&none, 0, 100)), Fault::DimensionCountNotPositive);
    let mut negative = vec![97, 0, 1];
    negative.extend_from_slice(&(-1i32).to_le_bytes());
    assert_eq!(fault_of(parse_array(&negative, 0, 100)), Fault::DimensionCountNotPositive);
    assert_eq!(fault_of(parse_array(&negative, 0, -5)), Fault::DimensionCountExceedsSize);
}

#[test]
fn array_dimensions_are_checked() {
    let zero = array_bytes(1, &[2, 0], &[1, 2]);
    assert_eq!(fault_of(parse_array(&zero, 0, 100)), Fault::DimensionNotPositive);
    let negative = array_bytes(1, &[-2], &[1, 2]);
    assert_eq!(fault_of(parse_array(&negative, 0, 100)), Fault::DimensionNotPositive);
    let large = array_bytes(1, &[1, 101], &[1, 2]);
    assert_eq!(fault_of(parse_array(&large, 0, 100)), Fault::DimensionExceedsSize);
    let cut = array_bytes(1, &[1, 2], &[]);
    assert_eq!(fault_of(parse_array(&cut[..cut.len() - 1], 0, 100)), Fault::BufferTooShort);
}

#[test]
fn array_product_is_checked() {
    let elements = vec![0u8; 200];
    let many = array_bytes(1, &[10, 11], &elements);
    assert_eq!(fault_of(parse_array(&many, 0, 100)), Fault::ElementsExceedSize);
    let exact = array_bytes(1, &[10, 10], &elements);
    assert!(parse_array(&exact, 0, 100).is_ok());
    let wide = array_bytes(3, &[10, 3], &elements);
    assert_eq!(fault_of(parse_array(&wide, 0, 100)), Fault::ArrayExceedsSize);
    let fits = array_bytes(3, &[5, 5], &elements);
    assert!(parse_array(&fits, 0, 100).is_ok());
}

#[test]
fn array_product_beyond_32_bits_is_refused() {
    let elements = vec![0u8; 16];
    let huge = array_bytes(1, &[65536, 65536], &elements);
    assert_eq!(fault_of(parse_array(&huge, 0, 70000)), Fault::ElementsExceedSize);
    let huger = array_bytes(1, &[i32::MAX, i32::MAX, i32::MAX, i32::MAX], &elements);
    assert_eq!(fault_of(parse_array(&huger, 0, i32::MAX)), Fault::ElementsExceedSize);
}

#[test]
fn array_bound_holds_though_the_buffer_has_the_bytes() {
    let elements = vec![0u8; 64];
    let buffer = array_bytes(10, &[4], &elements);
    assert_eq!(fault_of(parse_array(&buffer, 0, 31)), Fault::ArrayExceedsSize);
    let ((_, array), _) = parse_array(&buffer, 0, 32).unwrap();
    assert_eq!(array.data.len(), 4);
}

#[test]
fn array_elements_cut_short() {
    let buffer = array_bytes(3, &[2], &[1, 0, 0, 0, 2, 0, 0]);
    assert_eq!(fault_of(parse_array(&buffer, 0, 100)), Fault::BufferTooShort);
}

fn header(size: i32, scalars: i32, arrays: i32) -> Vec<u8> {
    let mut bytes = 65537i32.to_le_bytes().to_vec();
    bytes.extend_from_slice(&size.to_le_bytes());
    bytes.extend_from_slice(&scalars.to_le_bytes());
    bytes.extend_from_slice(&arrays.to_le_bytes());
    bytes
}

#[test]
fn record_header_is_checked() {
    let pad = |mut bytes: Vec<u8>| {
        bytes.extend_from_slice(&[0u8; 64]);
        bytes
    };
    assert_eq!(
        fault_of(parse_record(&pad(header(81, 1, 1)), 0)),
        Fault::RecordSizeExceedsBuffer
    );
    assert_eq!(fault_of(parse_record(&pad(header(0, 1, 1)), 0)), Fault::RecordSizeNotPositive);
    assert_eq!(fault_of(parse_record(&pad(header(-1, 1, 1)), 0)), Fault::RecordSizeNotPositive);
    assert_eq!(fault_of(parse_record(&pad(header(80, 0, 1)), 0)), Fault::ScalarCountNotPositive);
    assert_eq!(fault_of(parse_record(&pad(header(80, -7, 1)), 0)), Fault::ScalarCountNotPositive);
    assert_eq!(fault_of(parse_record(&pad(header(80, 1, 0)), 0)), Fault::ArrayCountNotPositive);
    assert_eq!(fault_of(parse_record(&pad(header(80, 1, -1)), 0)), Fault::ArrayCountNotPositive);
    assert_eq!(
        fault_of(parse_record(&pad(header(80, 40, 41)), 0)),
        Fault::ElementCountExceedsSize
    );
    assert_eq!(
        fault_of(parse_record(&pad(header(80, i32::MAX, i32::MAX)), 0)),
        Fault::ElementCountExceedsSize
    );
}

#[test]
fn record_code_is_not_checked() {
    let mut bytes = RECORD.to_vec();
    bytes[0] = 42;
    bytes[3] = 42;
    assert_eq!(parse_record(&bytes, 0).unwrap().0, sample());
}

#[test]
fn record_size_must_match_what_was_read() {
    let mut bytes = RECORD.to_vec();
    bytes.extend_from_slice(&[0u8; 8]);
    bytes[4] = 40;
    assert_eq!(fault_of(parse_record(&bytes, 0)), Fault::RecordSizeMismatch);
    bytes[4] = 38;
    assert_eq!(fault_of(parse_record(&bytes, 0)), Fault::RecordSizeMismatch);
    bytes[4] = 39;
    assert!(parse_record(&bytes, 0).is_ok());
}

#[test]
fn record_with_a_name_twice_keeps_the_later_entry() {
    let mut bytes = header(0, 2, 1);
    bytes.extend_from_slice(&[120, 0, 16, 1]);
    bytes.extend_from_slice(&[120, 0, 16, 2]);
    bytes.extend_from_slice(&array_bytes(1, &[1], &[5]));
    let size = bytes.len() as i32;
    bytes[4..8].copy_from_slice(&size.to_le_bytes());
    let (rec, _) = parse_record(&bytes, 0).unwrap();
    assert_eq!(rec.num_scalars, 2);
    assert_eq!(rec.scalar_list, vec!["x".to_string(), "x".to_string()]);
    assert_eq!(rec.scalars.get(&"x".to_string()).unwrap().data, DmapType::UCHAR(2));
    assert_eq!(rec.to_bytes()[16..24], [120, 0, 16, 2, 120, 0, 16, 2]);
}
