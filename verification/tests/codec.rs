use msb128::decode_step;
use msb128::encode_bytes;
use msb128::read_positive;
use msb128::width_max;
use msb128::write_positive;
use msb128::write_positive_unsigned;
use msb128::ByteSink;
use msb128::ByteSource;
use msb128::ReadError;
use msb128::StepResult;
use msb128::WriteError;

fn read_one(data: Vec<u8>, bits: u32) -> Result<u128, ReadError> {
    let mut source = ByteSource::new(data);
    read_positive(&mut source, bits)
}

#[test]
fn test_reading() {
    assert_eq!(0, read_one(vec![0x00], 31).unwrap());
    assert_eq!(1, read_one(vec![0x01], 31).unwrap());
    assert_eq!(127, read_one(vec![0x7F], 31).unwrap());
    assert_eq!(128, read_one(vec![0x80, 0x00], 31).unwrap());
    assert_eq!(255, read_one(vec![0x80, 0x7F], 31).unwrap());
    assert_eq!(256, read_one(vec![0x81, 0x00], 31).unwrap());
    assert_eq!(16383, read_one(vec![0xFE, 0x7F], 31).unwrap());
    assert_eq!(16384, read_one(vec![0xFF, 0x00], 31).unwrap());
    assert_eq!(16511, read_one(vec![0xFF, 0x7F], 31).unwrap());
    assert_eq!(65535, read_one(vec![0x82, 0xFE, 0x7F], 31).unwrap());
    assert_eq!(
        1u128 << 32,
        read_one(vec![0x8E, 0xFE, 0xFE, 0xFF, 0x00], 64).unwrap()
    );
}

#[test]
fn test_writing() {
    let testcases: Vec<(i128, usize, [u8; 8])> = vec![
        (0, 1, [0x00, 0x00, 0x00, 0x00, 0x00, 0x00, 0x00, 0x00]),
        (1, 1, [0x01, 0x00, 0x00, 0x00, 0x00, 0x00, 0x00, 0x00]),
        (127, 1, [0x7F, 0x00, 0x00, 0x00, 0x00, 0x00, 0x00, 0x00]),
        (128, 2, [0x80, 0x00, 0x00, 0x00, 0x00, 0x00, 0x00, 0x00]),
        (255, 2, [0x80, 0x7F, 0x00, 0x00, 0x00, 0x00, 0x00, 0x00]),
        (256, 2, [0x81, 0x00, 0x00, 0x00, 0x00, 0x00, 0x00, 0x00]),
        (16383, 2, [0xFE, 0x7F, 0x00, 0x00, 0x00, 0x00, 0x00, 0x00]),
        (16384, 2, [0xFF, 0x00, 0x00, 0x00, 0x00, 0x00, 0x00, 0x00]),
        (16511, 2, [0xFF, 0x7F, 0x00, 0x00, 0x00, 0x00, 0x00, 0x00]),
        (65535, 3, [0x82, 0xFE, 0x7F, 0x00, 0x00, 0x00, 0x00, 0x00]),
        (
            1i128 << 32,
            5,
            [0x8E, 0xFE, 0xFE, 0xFF, 0x00, 0x00, 0x00, 0x00],
        ),
    ];

    for tc in testcases {
        let mut sink = ByteSink::new(8);
        // check the length of the written data
        assert_eq!(tc.1, write_positive(&mut sink, tc.0).unwrap());
        // check the contents of the written data
        let written = sink.into_buffer();
        let mut buf = [0u8; 8];
        buf[..written.len()].copy_from_slice(&written);
        assert_eq!(tc.2, buf);
    }
}

#[test]
fn test_write_and_then_read() {
    let mut testcases = vec![];
    for i in 2..128 {
        testcases.push((1u128 << i) - 1);
        testcases.push(1u128 << i);
        testcases.push((1u128 << i) + 1);
    }

    // write testcases into a 4096-byte sink
    let mut sink = ByteSink::new(4096);
    for tc in testcases.clone() {
        write_positive_unsigned(&mut sink, tc).unwrap();
    }

    // read testcases back and check
    let mut source = ByteSource::new(sink.into_buffer());
    for tc in testcases {
        let val: u128 = read_positive(&mut source, 128).unwrap();
        assert_eq!(tc, val);
    }
}

#[test]
fn test_is_err_on_negative_write() {
    let mut sink = ByteSink::new(8);
    assert!(write_positive(&mut sink, -2).is_err());
}

#[test]
fn test_reading_sequence_advances_cursor() {
    // 10, 20, 30
    let mut source = ByteSource::new(vec![0x0A, 0x14, 0x1E]);
    assert_eq!(10, read_positive(&mut source, 15).unwrap());
    assert_eq!(20, read_positive(&mut source, 7).unwrap());
    assert_eq!(30, read_positive(&mut source, 31).unwrap());
    assert_eq!(0, source.remaining());
}

#[test]
fn test_reading_sequence_mixed_lengths() {
    let mut source = ByteSource::new(vec![0x0D, 0x7F, 0x81, 0x00, 0xFE, 0x7F]);
    assert_eq!(13, read_positive(&mut source, 63).unwrap());
    assert_eq!(127, read_positive(&mut source, 7).unwrap());
    assert_eq!(256, read_positive(&mut source, 31).unwrap());
    assert_eq!(16383, read_positive(&mut source, 15).unwrap());
    assert_eq!(0, source.remaining());
}

#[test]
fn test_encoding_literals() {
    assert_eq!(vec![0x00], encode_bytes(0));
    assert_eq!(vec![0x01], encode_bytes(1));
    assert_eq!(vec![0x8E, 0xFE, 0xFE, 0xFF, 0x00], encode_bytes(1u128 << 32));
}

#[test]
fn test_encoding_length_boundaries() {
    assert_eq!(1, encode_bytes(127).len());
    assert_eq!(2, encode_bytes(128).len());
    assert_eq!(2, encode_bytes(16383).len());
    assert_eq!(2, encode_bytes(16384).len());
    assert_eq!(2, encode_bytes(16511).len());
    assert_eq!(3, encode_bytes(16512).len());
    assert_eq!(3, encode_bytes(65535).len());
    assert_eq!(5, encode_bytes(1u128 << 32).len());
}

#[test]
fn test_overflow_on_narrow_width() {
    // 256 does not fit in eight bits
    assert_eq!(Err(ReadError::Overflow), read_one(vec![0x81, 0x00], 8));
    // 255 still does
    assert_eq!(Ok(255), read_one(vec![0x80, 0x7F], 8));
    // 128 does not fit in seven bits (a signed byte)
    assert_eq!(Err(ReadError::Overflow), read_one(vec![0x80, 0x00], 7));
}

#[test]
fn test_truncated_stream_is_io_error() {
    // a continuation bit with nothing after it is not a value
    assert_eq!(Err(ReadError::IoError), read_one(vec![0x80], 64));
    // an empty stream neither
    assert_eq!(Err(ReadError::IoError), read_one(vec![], 64));
}

#[test]
fn test_negative_write_leaves_sink_untouched() {
    let mut sink = ByteSink::new(8);
    assert_eq!(Err(WriteError::Negative), write_positive(&mut sink, -1));
    assert_eq!(0, sink.buffer().len());
}

#[test]
fn test_full_sink_takes_what_fits() {
    let mut sink = ByteSink::new(1);
    assert_eq!(Err(WriteError::IoError), write_positive(&mut sink, 256));
    // the one byte that fit was delivered
    assert_eq!(vec![0x81], sink.into_buffer());
}

#[test]
fn test_width_max_values() {
    assert_eq!(127, width_max(7));
    assert_eq!(255, width_max(8));
    assert_eq!(u64::MAX as u128, width_max(64));
    assert_eq!(u128::MAX, width_max(128));
}

#[test]
fn test_decode_step_bias() {
    // a continuation byte folds in its payload and adds one
    assert_eq!(StepResult::More(1), decode_step(0, 0x80, 255));
    assert_eq!(StepResult::Done(128), decode_step(1, 0x00, 255));
    // a total past the cap's seventh of range cannot shift again
    assert_eq!(StepResult::Overflow, decode_step(2, 0x00, 255));
    // the bias increment is refused exactly at the cap
    assert_eq!(StepResult::Overflow, decode_step(1, 0xFF, 255));
}

#[test]
fn test_round_trip_small_values() {
    for v in 0u128..=4096 {
        let mut sink = ByteSink::new(32);
        let n = write_positive_unsigned(&mut sink, v).unwrap();
        let buf = sink.into_buffer();
        assert_eq!(n, buf.len());
        let mut source = ByteSource::new(buf);
        assert_eq!(v, read_positive(&mut source, 128).unwrap());
        assert_eq!(0, source.remaining());
    }
}
