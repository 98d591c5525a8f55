use datkit::readers::{read_bytes, read_type, ReadMode};

#[test]
fn type_reader_test() {
    let data: [u8; 4] = [1, 2, 3, 4];

    let expected_le = 4 << 24 | 3 << 16 | 2 << 8 | 1 << 0;
    let expected_be = 1 << 24 | 2 << 16 | 3 << 8 | 4 << 0;

    let le: i32 = read_type(ReadMode::LE, &data).unwrap();
    let be: i32 = read_type(ReadMode::BE, &data).unwrap();

    assert_eq!(le, expected_le);
    assert_eq!(be, expected_be);

    let b: [u8; 1] = [0];
    let actual: bool = read_type(ReadMode::NE, &b).unwrap();
    assert_eq!(actual, false);

    let b: [u8; 1] = [5];
    let actual: bool = read_type(ReadMode::NE, &b).unwrap();
    assert_eq!(actual, true);
}

#[test]
fn read_bytes_bounds() {
    let data: [u8; 3] = [9, 8, 7];
    assert_eq!(read_bytes::<2>(&data).unwrap(), vec![9, 8]);
    assert!(read_bytes::<4>(&data).is_none());
    let wide: Option<u64> = read_type(ReadMode::BE, &data);
    assert!(wide.is_none());
}
