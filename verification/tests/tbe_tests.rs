use tbe::{exp2, floor_log2, BitReader, BitWriter, StreamError, Tbe, TbeStruct};

fn descriptor(n: u32) -> TbeStruct {
    assert!(n >= 1);
    n.tbe()
}

#[test]
fn floor_log2_values() {
    assert_eq!(floor_log2(1), 0);
    assert_eq!(floor_log2(2), 1);
    assert_eq!(floor_log2(3), 1);
    assert_eq!(floor_log2(4), 2);
    assert_eq!(floor_log2(5), 2);
    assert_eq!(floor_log2(255), 7);
    assert_eq!(floor_log2(256), 8);
    assert_eq!(floor_log2(u32::MAX), 31);
}

#[test]
fn exp2_values() {
    assert_eq!(exp2(0), 1);
    assert_eq!(exp2(1), 2);
    assert_eq!(exp2(8), 256);
    assert_eq!(exp2(31), 0x8000_0000);
}

#[test]
fn descriptor_fields() {
    let d = descriptor(1);
    assert_eq!(d.get_k(), 0);
    assert_eq!(d.get_u(), 1);
    let d = descriptor(2);
    assert_eq!(d.get_k(), 1);
    assert_eq!(d.get_u(), 2);
    let d = descriptor(5);
    assert_eq!(d.get_k(), 2);
    assert_eq!(d.get_u(), 3);
    let d = descriptor(256);
    assert_eq!(d.get_k(), 8);
    assert_eq!(d.get_u(), 256);
    let d = descriptor(300);
    assert_eq!(d.get_k(), 8);
    assert_eq!(d.get_u(), 212);
    let d = descriptor(u32::MAX);
    assert_eq!(d.get_k(), 31);
    assert_eq!(d.get_u(), 1);
}

#[test]
fn other_widths_build_the_same_descriptors() {
    let d = 5u8.tbe();
    assert_eq!(d.get_k(), 2);
    assert_eq!(d.get_u(), 3);
    let d = 2u8.tbe();
    assert_eq!(d.get_k(), 1);
    assert_eq!(d.get_u(), 2);
    let d = 256u16.tbe();
    assert_eq!(d.get_k(), 8);
    assert_eq!(d.get_u(), 256);
}

#[test]
fn bound_one_writes_no_bits_and_reads_zero() {
    let d = descriptor(1);
    let mut w = BitWriter::new();
    for _ in 0..5 {
        w.write_tbe(d, 0);
    }
    let bytes = w.finish();
    assert_eq!(bytes, Vec::<u8>::new());

    let mut r = BitReader::new(bytes);
    for _ in 0..5 {
        assert_eq!(r.read_tbe(d), Ok(0));
    }
}

#[test]
fn bound_five_codes_and_reads_back() {
    let d = descriptor(5);
    let mut w = BitWriter::new();
    for v in 0..5 {
        w.write_tbe(d, v);
    }
    // Codes: 0,1,2 take two bits each; 3,4 take three bits each, twelve bits
    // in all, packed least significant bit first.
    let bytes = w.finish();
    assert_eq!(bytes, vec![0xe4, 0x0e]);

    let mut r = BitReader::new(bytes);
    for v in 0..5 {
        assert_eq!(r.read_tbe(d), Ok(v));
    }
}

#[test]
fn mixed_bounds_round_trip() {
    let bounds = [2u32, 3, 3];
    let values = [1u32, 2, 0];
    let mut w = BitWriter::new();
    for i in 0..3 {
        w.write_tbe(descriptor(bounds[i]), values[i]);
    }
    let bytes = w.finish();
    let mut r = BitReader::new(bytes);
    for i in 0..3 {
        assert_eq!(r.read_tbe(descriptor(bounds[i])), Ok(values[i]));
    }
}

#[test]
fn tbe_byte_stream_is_exact() {
    let mut w = BitWriter::new();
    w.write_tbe(descriptor(1), 0);
    w.write_tbe(descriptor(2), 1);
    w.write_tbe(descriptor(2), 0);
    w.write_tbe(descriptor(5), 0);
    w.write_tbe(descriptor(5), 1);
    w.write_tbe(descriptor(5), 2);
    w.write_tbe(descriptor(5), 3);
    w.write_tbe(descriptor(256), 0);
    let bytes = w.finish();
    assert_eq!(bytes, vec![0b10_01_00_01, 0b000_0000_011, 0b0]);
}

#[test]
fn tbe_reads_from_known_bytes() {
    let bytes = vec![0b0_11_01_0_0_1_u8, 0b11_0];
    let mut r = BitReader::new(bytes);
    assert_eq!(r.read_tbe(descriptor(1)), Ok(0));
    assert_eq!(r.read_tbe(descriptor(2)), Ok(1));
    assert_eq!(r.read_tbe(descriptor(2)), Ok(0));
    assert_eq!(r.read_tbe(descriptor(3)), Ok(0));
    assert_eq!(r.read_tbe(descriptor(3)), Ok(1));
    assert_eq!(r.read_tbe(descriptor(3)), Ok(2));
    assert_eq!(r.read_tbe(descriptor(4)), Ok(0));
    assert_eq!(r.read_tbe(descriptor(4)), Ok(3));
}

#[test]
fn bit_stream_round_trip() {
    let pairs: [(u8, u8); 6] = [(0b1, 1), (0xff, 8), (0, 0), (0b101, 3), (0b11, 2), (0x55, 7)];
    let mut w = BitWriter::new();
    for &(v, size) in pairs.iter() {
        w.write(v, size);
    }
    // 21 bits were written, so three bytes come out and the top three bits of
    // the last byte are zero padding.
    let bytes = w.finish();
    assert_eq!(bytes.len(), 3);

    let mut r = BitReader::new(bytes);
    for &(v, size) in pairs.iter() {
        assert_eq!(r.read(size), Ok(v));
    }
    assert_eq!(r.read(3), Ok(0));
}

#[test]
fn write32_chunks_are_little_endian() {
    let mut w = BitWriter::new();
    w.write32(0xabcd, 16);
    let bytes = w.finish();
    assert_eq!(bytes, vec![0xcd, 0xab]);
}

#[test]
fn write32_read32_round_trip() {
    let mut w = BitWriter::new();
    w.write32(0xabcd, 16);
    w.write32(0x1234_5678, 32);
    w.write32(5, 3);
    w.write32(0, 0);
    w.write32(0x7fff_ffff, 31);
    let bytes = w.finish();

    let mut r = BitReader::new(bytes);
    assert_eq!(r.read32(16), Ok(0xabcd));
    assert_eq!(r.read32(32), Ok(0x1234_5678));
    assert_eq!(r.read32(3), Ok(5));
    assert_eq!(r.read32(0), Ok(0));
    assert_eq!(r.read32(31), Ok(0x7fff_ffff));
}

#[test]
fn write_masks_high_bits() {
    let mut w = BitWriter::new();
    w.write(0xff, 2);
    let bytes = w.finish();
    assert_eq!(bytes, vec![0b11]);

    let mut w = BitWriter::new();
    w.write32(0xffff_ffff, 4);
    let bytes = w.finish();
    assert_eq!(bytes, vec![0b1111]);
}

#[test]
fn zero_size_operations_touch_nothing() {
    let mut w = BitWriter::new();
    w.write(0xff, 0);
    let bytes = w.finish();
    assert_eq!(bytes, Vec::<u8>::new());

    let mut r = BitReader::new(Vec::new());
    assert_eq!(r.read(0), Ok(0));
    assert_eq!(r.read32(0), Ok(0));

    let mut r = BitReader::new(vec![0b1]);
    assert_eq!(r.read(0), Ok(0));
    assert_eq!(r.read(1), Ok(1));
}

#[test]
fn end_of_stream_errors() {
    let mut r = BitReader::new(vec![0xaa]);
    assert_eq!(r.read(8), Ok(0xaa));
    assert_eq!(r.read(1), Err(StreamError::EndOfStream));

    let mut r = BitReader::new(vec![0xaa]);
    assert_eq!(r.read32(9), Err(StreamError::EndOfStream));

    let mut r = BitReader::new(Vec::new());
    assert_eq!(r.read_tbe(descriptor(2)), Err(StreamError::EndOfStream));
}

#[test]
fn straddling_byte_boundaries() {
    let mut w = BitWriter::new();
    w.write(0b101, 3);
    w.write(0b11011, 5);
    w.write(0b10110100, 8);
    w.write(0b1, 1);
    let bytes = w.finish();
    assert_eq!(bytes.len(), 3);

    let mut r = BitReader::new(bytes);
    assert_eq!(r.read(3), Ok(0b101));
    assert_eq!(r.read(5), Ok(0b11011));
    assert_eq!(r.read(8), Ok(0b10110100));
    assert_eq!(r.read(1), Ok(0b1));
}

#[test]
fn large_bound_round_trip() {
    let n = u32::MAX;
    let d = descriptor(n);
    let values = [0u32, 1, 0x7fff_ffff, 0x8000_0000, n - 1];
    let mut w = BitWriter::new();
    for &v in values.iter() {
        w.write_tbe(d, v);
    }
    let bytes = w.finish();
    let mut r = BitReader::new(bytes);
    for &v in values.iter() {
        assert_eq!(r.read_tbe(d), Ok(v));
    }
}
