use compiledb::bit_reader::BitReader;

#[test]
fn bit_reader_one_bit_at_a_time() {
    let magic = 0x8182f719u32;
    let bytes = magic.to_le_bytes();
    let mut reader = BitReader::new(&bytes[..]);
    let mut result = 0u32;

    for i in 0..u32::BITS {
        result |= reader.read_bits(1).unwrap() << i;
    }

    assert_eq!(result, magic);

    assert!(reader.read_bits(1).is_none());
    assert_eq!(reader.bytes_consumed(), u32::BITS as usize / 8);
}

#[test]
fn one_byte_at_a_time() {
    let magic = [0x12, 0x34, 0x56, 0x78, 0x9a, 0xbc, 0xde, 0x3];
    let mut reader = BitReader::new(&magic[..]);

    for i in 0..magic.len() {
        assert_eq!(magic[i] as u32, reader.read_bits(8).unwrap());
        assert_eq!(reader.bytes_consumed(), i + 1);
    }

    assert!(reader.read_bits(1).is_none());
}

#[test]
fn bit_reader_bytes_in_the_middle() {
    let magic = [0x12, 0x34, 0x56, 0x78, 0x9a, 0xbc, 0xde, 0x3];
    let mut reader = BitReader::new(&magic[..]);

    assert_eq!(reader.read_bits(4).unwrap(), 0x2);
    assert_eq!(reader.bytes_consumed(), 1);
    assert_eq!(reader.read_bits(32).unwrap(), 0xa7856341);
    assert_eq!(reader.bytes_consumed(), 5);
    assert_eq!(reader.read_bits(4).unwrap(), 0x9);
    assert_eq!(reader.bytes_consumed(), 5);
    assert_eq!(reader.read_bits(12).unwrap(), 0xebc);
    assert_eq!(reader.bytes_consumed(), 7);
    assert_eq!(reader.read_bits(12).unwrap(), 0x03d);
    assert_eq!(reader.bytes_consumed(), 8);
    assert!(reader.read_bits(1).is_none());
}

#[test]
fn reading_no_bits_takes_nothing() {
    let bytes = [0xffu8];
    let mut reader = BitReader::new(&bytes[..]);

    assert_eq!(reader.read_bits(0), Some(0));
    assert_eq!(reader.bytes_consumed(), 0);
    assert_eq!(reader.read_bits(8), Some(0xff));
    assert_eq!(reader.read_bits(0), Some(0));
    assert_eq!(reader.bytes_consumed(), 1);
}

#[test]
fn a_failed_read_leaves_the_reader_at_the_end() {
    let bytes = [0x5a, 0x01];
    let mut reader = BitReader::new(&bytes[..]);

    assert_eq!(reader.read_bits(4), Some(0xa));
    assert_eq!(reader.read_bits(13), None);
    assert_eq!(reader.bytes_consumed(), 2);
    assert_eq!(reader.read_bits(1), None);
    assert_eq!(reader.read_bits(0), Some(0));
}

#[test]
fn empty_input_has_no_bits() {
    let bytes: [u8; 0] = [];
    let mut reader = BitReader::new(&bytes[..]);

    assert_eq!(reader.read_bits(1), None);
    assert_eq!(reader.bytes_consumed(), 0);
}
