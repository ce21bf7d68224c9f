use astrometry::fits::{
    datatype_size, parse_bytes, CellValue, ColumnIter, FitsColumn, FitsError, FitsTableData,
};

#[test]
fn tform_sizes() {
    assert_eq!(datatype_size("1L").unwrap(), 1);
    assert_eq!(datatype_size("1B").unwrap(), 1);
    assert_eq!(datatype_size("1I").unwrap(), 2);
    assert_eq!(datatype_size("1J").unwrap(), 4);
    assert_eq!(datatype_size("1K").unwrap(), 8);
    assert_eq!(datatype_size("1A").unwrap(), 1);
    assert_eq!(datatype_size("1E").unwrap(), 4);
    assert_eq!(datatype_size("1D").unwrap(), 8);
    assert_eq!(datatype_size("1C").unwrap(), 8);
    assert_eq!(datatype_size("1M").unwrap(), 16);
    // the bit type packs its count into whole bytes
    assert_eq!(datatype_size("1X").unwrap(), 1);
    assert_eq!(datatype_size("8X").unwrap(), 1);
    assert_eq!(datatype_size("9X").unwrap(), 2);
    assert_eq!(datatype_size("0X").unwrap(), 0);
    assert_eq!(datatype_size("1Q").unwrap_err(), FitsError::UnknownTForm);
    assert_eq!(datatype_size("J").unwrap_err(), FitsError::UnknownTForm);
    assert_eq!(datatype_size("XJ").unwrap_err(), FitsError::UnknownTForm);
}

#[test]
fn big_endian_cells() {
    assert_eq!(parse_bytes('L', &[1]).unwrap(), match_logical(true));
    assert_eq!(parse_bytes('B', &[0xFE]).unwrap(), match_int(254));
    assert_eq!(parse_bytes('I', &[0x12, 0x34]).unwrap(), match_int(0x1234));
    assert_eq!(parse_bytes('I', &[0xFF, 0xFE]).unwrap(), match_int(-2));
    assert_eq!(parse_bytes('J', &[0x80, 0, 0, 0]).unwrap(), match_int(-2147483648));
    assert_eq!(parse_bytes('J', &[0x00, 0x01, 0x02, 0x03]).unwrap(), match_int(0x010203));
    assert_eq!(
        parse_bytes('K', &[0xFF; 8]).unwrap(),
        match_int(-1)
    );
    // float cells carry their raw big-endian bits
    let one = 1.0f32.to_bits();
    let b = one.to_be_bytes();
    match parse_bytes('E', &b).unwrap() {
        CellValue::Float32Bits(bits) => assert_eq!(f32::from_bits(bits), 1.0),
        _ => panic!("not a float cell"),
    }
    let two = 2.5f64.to_bits();
    let b = two.to_be_bytes();
    match parse_bytes('D', &b).unwrap() {
        CellValue::Float64Bits(bits) => assert_eq!(f64::from_bits(bits), 2.5),
        _ => panic!("not a double cell"),
    }
    match parse_bytes('A', b"RA  ").unwrap() {
        CellValue::Text(t) => assert_eq!(t, "RA  "),
        _ => panic!("not a text cell"),
    }
    assert_eq!(parse_bytes('A', &[0x80]).unwrap_err(), FitsError::CellDecodeFailed);
    assert_eq!(parse_bytes('I', &[1, 2, 3]).unwrap_err(), FitsError::CellDecodeFailed);
    assert_eq!(parse_bytes('Z', &[0]).unwrap_err(), FitsError::UnknownTForm);
    match parse_bytes('C', &[0x3F, 0x80, 0, 0, 0xBF, 0x80, 0, 0]).unwrap() {
        CellValue::Complex32Bits(re, im) => {
            assert_eq!(f32::from_bits(re), 1.0);
            assert_eq!(f32::from_bits(im), -1.0);
        },
        _ => panic!("not a complex cell"),
    }
}

fn match_logical(v: bool) -> CellValue {
    CellValue::Logical(v)
}

fn match_int(v: i64) -> CellValue {
    CellValue::Int(v)
}

#[test]
fn column_iteration_and_values() {
    // three rows of five bytes: a 16-bit integer column at offset 0 and a
    // 3-char text column at offset 2
    let data = FitsTableData {
        shape: vec![5, 3],
        data: vec![
            0x00, 0x2A, b'a', b'b', b'c', // row 0
            0xFF, 0xFF, b'x', b'y', b'z', // row 1
            0x01, 0x00, b' ', b' ', b' ', // row 2
        ],
    };
    let int_col = FitsColumn {
        index: 0,
        name: String::from("NUM"),
        format: String::from("1I"),
        unit: None,
        datatype: 'I',
        count: 1,
        size: 2,
        offset: 0,
    };
    let txt_col = FitsColumn {
        index: 1,
        name: String::from("LABEL"),
        format: String::from("3A"),
        unit: Some(String::from("name")),
        datatype: 'A',
        count: 3,
        size: 1,
        offset: 2,
    };
    assert_eq!(int_col.value(&data, 0).unwrap(), CellValue::Int(42));
    assert_eq!(int_col.value(&data, 1).unwrap(), CellValue::Int(-1));
    assert_eq!(int_col.value(&data, 2).unwrap(), CellValue::Int(256));
    assert_eq!(int_col.value(&data, 3).unwrap_err(), FitsError::CellDecodeFailed);
    assert_eq!(int_col.name(), "NUM");
    assert_eq!(int_col.format(), "1I");
    assert_eq!(int_col.index(), 0);
    assert_eq!(txt_col.unit(), Some("name"));

    // the repeated text column decodes its one whole element chunk
    match txt_col.value(&data, 0).unwrap() {
        CellValue::List(vs) => {
            assert_eq!(vs.len(), 1);
            match &vs[0] {
                CellValue::Text(t) => assert_eq!(t, "a"),
                _ => panic!("not text"),
            }
        },
        _ => panic!("not a list"),
    }

    let mut it = ColumnIter::new(&data.data, 5, [0, 2]);
    assert_eq!(it.next().unwrap().to_vec(), vec![0x00u8, 0x2A]);
    assert_eq!(it.next().unwrap().to_vec(), vec![0xFFu8, 0xFF]);
    assert_eq!(it.next().unwrap().to_vec(), vec![0x01u8, 0x00]);
    assert!(it.next().is_none());

    let mut it2 = int_col.iter(&data);
    assert_eq!(it2.next().unwrap().to_vec(), vec![0x00u8, 0x2A]);
}
