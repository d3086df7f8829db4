use bitstream_io::{BitError, BitRead, BitReaderBE, BitReaderLE, BitWrite, BitWriterBE, BitWriterLE};

#[test]
fn writer_be_builds_the_sample_bytes() {
    let mut w = BitWriterBE::new();
    assert!(w.byte_aligned());
    w.write(2, 2).unwrap();
    w.write(3, 6).unwrap();
    w.write(5, 7).unwrap();
    w.write(3, 5).unwrap();
    w.write(19, 0x53BC1).unwrap();
    assert!(w.byte_aligned());
    assert_eq!(w.bytes(), &[0xB1, 0xED, 0x3B, 0xC1]);
}

#[test]
fn writer_le_builds_the_sample_bytes() {
    let mut w = BitWriterLE::new();
    w.write(2, 1).unwrap();
    w.write(3, 4).unwrap();
    w.write(5, 13).unwrap();
    w.write(3, 3).unwrap();
    w.write(19, 0x609DF).unwrap();
    assert!(w.byte_aligned());
    assert_eq!(w.bytes(), &[0xB1, 0xED, 0x3B, 0xC1]);
}

#[test]
fn partial_byte_is_not_flushed_until_aligned() {
    let mut w = BitWriterBE::new();
    w.write(4, 0xB).unwrap();
    assert!(!w.byte_aligned());
    assert_eq!(w.bytes(), &[] as &[u8]);
    w.byte_align();
    assert!(w.byte_aligned());
    assert_eq!(w.bytes(), &[0xB0]);
    w.byte_align();
    assert_eq!(w.bytes(), &[0xB0]);

    let mut w = BitWriterLE::new();
    w.write_bit(true);
    w.byte_align();
    w.byte_align();
    assert_eq!(w.bytes(), &[0x01]);
}

#[test]
fn round_trip_unsigned_every_width() {
    for w in 1..=64u32 {
        let values: [u64; 3] = [0, 1, if w == 64 { u64::MAX } else { (1u64 << w) - 1 }];
        for v in values {
            let mut be = BitWriterBE::new();
            be.write(3, 5).unwrap();
            be.write(w, v).unwrap();
            be.byte_align();
            let mut r = BitReaderBE::new(be.bytes());
            assert_eq!(r.read::<u64>(3).unwrap(), 5);
            assert_eq!(r.read::<u64>(w).unwrap(), v);

            let mut le = BitWriterLE::new();
            le.write(3, 5).unwrap();
            le.write(w, v).unwrap();
            le.byte_align();
            let mut r = BitReaderLE::new(le.bytes());
            assert_eq!(r.read::<u64>(3).unwrap(), 5);
            assert_eq!(r.read::<u64>(w).unwrap(), v);
        }
    }
}

#[test]
fn round_trip_signed_every_width() {
    for w in 2..=64u32 {
        let max: i64 = if w == 64 { i64::MAX } else { (1i64 << (w - 1)) - 1 };
        let min: i64 = -max - 1;
        for v in [min, -1, 0, 1, max] {
            let mut be = BitWriterBE::new();
            be.write_signed(w, v).unwrap();
            be.byte_align();
            let mut r = BitReaderBE::new(be.bytes());
            assert_eq!(r.read_signed::<i64>(w).unwrap(), v);

            let mut le = BitWriterLE::new();
            le.write_bit(true);
            le.write_signed(w, v).unwrap();
            le.byte_align();
            let mut r = BitReaderLE::new(le.bytes());
            assert_eq!(r.read::<u64>(1).unwrap(), 1);
            assert_eq!(r.read_signed::<i64>(w).unwrap(), v);
        }
    }
}

#[test]
fn write_signed_encodes_sign_then_magnitude() {
    let mut w = BitWriterBE::new();
    w.write_signed(4, -3).unwrap();
    w.write_signed(4, 5).unwrap();
    assert_eq!(w.bytes(), &[0xD5]);
}

#[test]
fn round_trip_unary() {
    for n in [0u32, 1, 7, 8, 9, 30] {
        let mut w = BitWriterBE::new();
        w.write_unary0(n);
        w.write_unary1(n);
        w.byte_align();
        let mut r = BitReaderBE::new(w.bytes());
        assert_eq!(r.read_unary0().unwrap(), n as u64);
        assert_eq!(r.read_unary1().unwrap(), n as u64);

        let mut w = BitWriterLE::new();
        w.write_unary1(n);
        w.write_unary0(n);
        w.byte_align();
        let mut r = BitReaderLE::new(w.bytes());
        assert_eq!(r.read_unary1().unwrap(), n as u64);
        assert_eq!(r.read_unary0().unwrap(), n as u64);
    }
}

#[test]
fn unary_codes_have_exact_bits() {
    let mut w = BitWriterBE::new();
    w.write_unary0(3);
    w.write_unary1(3);
    assert_eq!(w.bytes(), &[0xE1]);
}

#[test]
fn write_bytes_aligned_and_unaligned() {
    let mut w = BitWriterBE::new();
    w.write_bytes(&[0xB1, 0xED]);
    assert_eq!(w.bytes(), &[0xB1, 0xED]);

    let mut w = BitWriterBE::new();
    w.write(4, 0xB).unwrap();
    w.write_bytes(&[0x1E, 0xD3]);
    w.write(4, 0xB).unwrap();
    assert_eq!(w.bytes(), &[0xB1, 0xED, 0x3B]);

    let mut w = BitWriterLE::new();
    w.write(4, 1).unwrap();
    w.write_bytes(&[0xDB, 0xBE]);
    w.write(4, 0xB).unwrap();
    assert_eq!(w.bytes(), &[0xB1, 0xED, 0xBB]);
}

#[test]
fn writer_refuses_bad_arguments() {
    let mut w = BitWriterBE::new();
    assert_eq!(w.write(65, 0u64), Err(BitError::InvalidArgument));
    assert_eq!(w.write(33, 0u32), Err(BitError::InvalidArgument));
    assert_eq!(w.write(9, 0i8), Err(BitError::InvalidArgument));
    assert_eq!(w.write_signed(9, 0i8), Err(BitError::InvalidArgument));
    assert_eq!(w.write_signed(1, 0), Err(BitError::InvalidArgument));
    assert_eq!(w.write_signed(65, 0), Err(BitError::InvalidArgument));
    assert_eq!(w.write_signed(4, 8), Err(BitError::InvalidArgument));
    assert_eq!(w.write_signed(4, -9), Err(BitError::InvalidArgument));
    assert!(w.write_signed(4, -8).is_ok());
    assert!(w.write_signed(4, 7).is_ok());
    assert_eq!(w.bytes(), &[0x87]);
}

#[test]
fn write_keeps_only_the_low_bits() {
    let mut w = BitWriterLE::new();
    w.write(4, 0xFA).unwrap();
    w.write(0, 0xFF).unwrap();
    w.write(4, 0x3).unwrap();
    assert_eq!(w.bytes(), &[0x3A]);
}

#[test]
fn alignment_counts_bits() {
    let mut w = BitWriterLE::new();
    for i in 0..16u32 {
        assert_eq!(w.byte_aligned(), i % 8 == 0);
        w.write_bit(i % 3 == 0);
    }
    assert!(w.byte_aligned());
    let data: [u8; 3] = [1, 2, 3];
    let mut r = BitReaderBE::new(&data);
    for i in 0..24u32 {
        assert_eq!(r.byte_aligned(), i % 8 == 0);
        r.skip(1).unwrap();
    }
    assert!(r.byte_aligned());
}

#[test]
fn every_payload_type_round_trips() {
    let mut w = BitWriterBE::new();
    w.write(8, 0xA5u8).unwrap();
    w.write(8, -2i8).unwrap();
    w.write(16, 0xBEEFu16).unwrap();
    w.write(16, -300i16).unwrap();
    w.write(32, 0xDEADBEEFu32).unwrap();
    w.write(32, i32::MIN).unwrap();
    w.write(64, u64::MAX - 1).unwrap();
    w.write(64, i64::MIN + 1).unwrap();
    w.write(5, -1i32).unwrap();
    w.write_signed(3, -4i8).unwrap();
    w.write_signed(16, i16::MAX).unwrap();
    w.byte_align();
    assert_eq!(&w.bytes()[0..2], &[0xA5, 0xFE]);
    let mut r = BitReaderBE::new(w.bytes());
    assert_eq!(r.read::<u8>(8).unwrap(), 0xA5);
    assert_eq!(r.read::<i8>(8).unwrap(), -2);
    assert_eq!(r.read::<u16>(16).unwrap(), 0xBEEF);
    assert_eq!(r.read::<i16>(16).unwrap(), -300);
    assert_eq!(r.read::<u32>(32).unwrap(), 0xDEADBEEF);
    assert_eq!(r.read::<i32>(32).unwrap(), i32::MIN);
    assert_eq!(r.read::<u64>(64).unwrap(), u64::MAX - 1);
    assert_eq!(r.read::<i64>(64).unwrap(), i64::MIN + 1);
    assert_eq!(r.read::<u8>(5).unwrap(), 31);
    assert_eq!(r.read_signed::<i8>(3).unwrap(), -4);
    assert_eq!(r.read_signed::<i16>(16).unwrap(), i16::MAX);
}
