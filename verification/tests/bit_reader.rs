use datkit::bit_reader::BitReader;

#[test]
fn get_bit_test() {
    let byte1 = 0b1001_0110;
    let byte2 = 0b0101_0001;

    let mut reader = BitReader::new(vec![byte1, byte2]);

    let mut gb = || reader.get_bit().unwrap();

    assert_eq!(gb(), 0);
    assert_eq!(gb(), 1);
    assert_eq!(gb(), 1);
    assert_eq!(gb(), 0);

    assert_eq!(gb(), 1);
    assert_eq!(gb(), 0);
    assert_eq!(gb(), 0);
    assert_eq!(gb(), 1);

    assert_eq!(gb(), 1);
    assert_eq!(gb(), 0);
    assert_eq!(gb(), 0);
    assert_eq!(gb(), 0);

    assert_eq!(gb(), 1);
    assert_eq!(gb(), 0);
    assert_eq!(gb(), 1);
    assert_eq!(gb(), 0);
}

#[test]
fn get_bits_test() {
    let bits = vec![25, 2, 128, 204, 8, 255, 2, 5];

    let mut reader = BitReader::new(bits);

    let power = reader.get_bits_u8(4).unwrap();
    assert_eq!(power, 9);

    let value = reader.get_bits_u16(16).unwrap();
    assert_eq!(value, 33);
}

#[test]
fn bit_reader_sizes() {
    let mut reader = BitReader::new(vec![0xFF, 0x00]);
    assert_eq!(reader.bit_size(), 16);
    assert_eq!(reader.byte_size(), 2);
    reader.get_bit().unwrap();
    assert_eq!(reader.bit_size(), 15);
    assert_eq!(reader.byte_size(), 2);
    assert_eq!(reader.get_bits_u32(32), None);
}

#[test]
fn bit_reader_signed() {
    let mut reader = BitReader::new(vec![0xFF, 0xFF]);
    assert_eq!(reader.get_bits_i8(8).unwrap(), -1);
    assert_eq!(reader.get_bits_i8(9), None);
}
