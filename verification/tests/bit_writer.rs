use compiledb::bit_reader::BitReader;
use compiledb::bit_writer::BitWriter;

const TEST_VALUES: [u32; 5] = [0, u32::MAX, 0x10101010, 0x05050505, 0x87654321];

#[test]
fn bit_writer_one_bit_at_a_time() {
    for &value in TEST_VALUES.iter() {
        let mut value = value;
        let expected = value.to_le_bytes();
        let mut writer = BitWriter::new(Vec::new());

        for _ in 0..u32::BITS {
            writer.add_bits(value, 1);
            value >>= 1;
        }

        let result = writer.done();

        assert_eq!(&expected[..], &result);
    }
}

#[test]
fn bit_writer_bytes_in_the_middle() {
    for &value in TEST_VALUES.iter() {
        let expected = value.to_le_bytes();
        let mut writer = BitWriter::new(Vec::new());

        writer.add_bits(value, 1);
        writer.add_bits(value >> 1, 30);
        writer.add_bits(value >> 31, 1);

        let result = writer.done();

        assert_eq!(&expected[..], &result);
    }
}

#[test]
fn each_byte() {
    for &value in TEST_VALUES.iter() {
        let expected = value.to_le_bytes();
        let mut writer = BitWriter::new(Vec::new());

        writer.add_bits(value, 8);
        writer.add_bits(value >> 8, 8);
        writer.add_bits(value >> 16, 8);
        writer.add_bits(value >> 24, 8);

        let result = writer.done();

        assert_eq!(&expected[..], &result);
    }
}

#[test]
fn dangling_data() {
    let mut writer = BitWriter::new(Vec::new());

    writer.add_bits(0x1e, 8);
    writer.add_bits(0x0265, 10);
    let result = writer.done();

    assert_eq!(&result, &[0x1e, 0x65, 0x02]);
}

#[test]
fn only_the_low_bits_are_written() {
    let mut writer = BitWriter::new(Vec::new());

    writer.add_bits(0xff, 1);
    writer.add_bits(0, 1);
    writer.add_bits(0xffff_ffff, 3);
    let result = writer.done();

    assert_eq!(&result, &[0b11101]);
}

#[test]
fn whole_words() {
    let mut writer = BitWriter::new(Vec::new());

    writer.add_bits(0x87654321, 32);
    writer.add_bits(1, 1);
    writer.add_bits(0x12345678, 32);
    let result = writer.done();

    assert_eq!(&result, &[0x21, 0x43, 0x65, 0x87, 0xf1, 0xac, 0x68, 0x24, 0x00]);
}

#[test]
fn no_bits_no_bytes() {
    let mut writer = BitWriter::new(Vec::new());

    writer.add_bits(0xffff, 0);

    assert_eq!(writer.done().len(), 0);
}

#[test]
fn appends_after_the_bytes_already_there() {
    let mut writer = BitWriter::new(vec![0xaa, 0xbb]);

    writer.add_bits(0x5, 3);

    assert_eq!(&writer.done(), &[0xaa, 0xbb, 0x05]);
}

#[test]
fn written_bits_read_back() {
    let chunks: [(u32, u8); 9] = [
        (0x1, 1),
        (0x0, 0),
        (0x2a5, 10),
        (0xffff_ffff, 32),
        (0x7, 3),
        (0x1234_5678, 29),
        (0x0, 7),
        (0x8000_0001, 32),
        (0x3, 2),
    ];
    let mut writer = BitWriter::new(Vec::new());
    let mut total_bits = 0usize;

    for &(bits, width) in chunks.iter() {
        writer.add_bits(bits, width);
        total_bits += width as usize;
    }

    let bytes = writer.done();

    assert_eq!(bytes.len(), (total_bits + 7) / 8);

    let mut reader = BitReader::new(&bytes[..]);

    for &(bits, width) in chunks.iter() {
        let mask = if width == 32 { u32::MAX } else { (1u32 << width) - 1 };
        assert_eq!(reader.read_bits(width), Some(bits & mask));
    }

    assert_eq!(reader.bytes_consumed(), bytes.len());
}
