use bitstream_io::{BitError, BitRead, BitReaderBE, BitReaderLE};

#[test]
fn test_reader_be() {
    let actual_data: [u8; 4] = [0xB1, 0xED, 0x3B, 0xC1];

    {
        /*reading unsigned values*/
        let mut r = BitReaderBE::new(&actual_data);
        assert!(r.byte_aligned());
        assert_eq!(r.read::<u32>(2).unwrap(), 2);
        assert!(!r.byte_aligned());
        assert_eq!(r.read::<u32>(3).unwrap(), 6);
        assert!(!r.byte_aligned());
        assert_eq!(r.read::<u32>(5).unwrap(), 7);
        assert!(!r.byte_aligned());
        assert_eq!(r.read::<u32>(3).unwrap(), 5);
        assert!(!r.byte_aligned());
        assert_eq!(r.read::<u32>(19).unwrap(), 0x53BC1);
        assert!(r.byte_aligned());
        assert!(r.read::<u32>(1).is_err());
    }
    {
        /*skipping bits*/
        let mut r = BitReaderBE::new(&actual_data);
        assert_eq!(r.read::<u32>(2).unwrap(), 2);
        assert!(r.skip(3).is_ok());
        assert_eq!(r.read::<u32>(5).unwrap(), 7);
        assert!(r.skip(3).is_ok());
        assert_eq!(r.read::<u32>(19).unwrap(), 0x53BC1);
    }
    {
        /*reading signed values*/
        let mut r = BitReaderBE::new(&actual_data);
        assert_eq!(r.read_signed::<i32>(2).unwrap(), -2);
        assert_eq!(r.read_signed::<i32>(3).unwrap(), -2);
        assert_eq!(r.read_signed::<i32>(5).unwrap(), 7);
        assert_eq!(r.read_signed::<i32>(3).unwrap(), -3);
        assert_eq!(r.read_signed::<i32>(19).unwrap(), -181311);
    }
    {
        /*reading unary 0 values*/
        let mut r = BitReaderBE::new(&actual_data);
        assert_eq!(r.read_unary0().unwrap(), 1);
        assert_eq!(r.read_unary0().unwrap(), 2);
        assert_eq!(r.read_unary0().unwrap(), 0);
        assert_eq!(r.read_unary0().unwrap(), 0);
        assert_eq!(r.read_unary0().unwrap(), 4);
    }
    {
        /*reading unary 1 values*/
        let mut r = BitReaderBE::new(&actual_data);
        assert_eq!(r.read_unary1().unwrap(), 0);
        assert_eq!(r.read_unary1().unwrap(), 1);
        assert_eq!(r.read_unary1().unwrap(), 0);
        assert_eq!(r.read_unary1().unwrap(), 3);
        assert_eq!(r.read_unary1().unwrap(), 0);
    }
    {
        /*byte aligning*/
        let mut r = BitReaderBE::new(&actual_data);
        assert_eq!(r.read::<u32>(3).unwrap(), 5);
        r.byte_align();
        assert_eq!(r.read::<u32>(3).unwrap(), 7);
        r.byte_align();
        r.byte_align();
        assert_eq!(r.read::<u32>(8).unwrap(), 59);
        r.byte_align();
        assert_eq!(r.read::<u32>(4).unwrap(), 12);
    }
    {
        /*reading bytes, aligned*/
        let mut r = BitReaderBE::new(&actual_data);
        let mut sub_data = [0; 2];
        assert!(r.read_bytes(&mut sub_data).is_ok());
        assert_eq!(&sub_data, b"\xB1\xED");
    }
    {
        /*reading bytes, un-aligned*/
        let mut r = BitReaderBE::new(&actual_data);
        let mut sub_data = [0; 2];
        assert_eq!(r.read::<u32>(4).unwrap(), 11);
        assert!(r.read_bytes(&mut sub_data).is_ok());
        assert_eq!(&sub_data, b"\x1E\xD3");
    }
}

#[test]
fn test_edge_cases_be() {
    let data: Vec<u8> = vec![
        0, 0, 0, 0, 255, 255, 255, 255, 128, 0, 0, 0, 127, 255, 255, 255, 0, 0, 0, 0, 0, 0, 0, 0,
        255, 255, 255, 255, 255, 255, 255, 255, 128, 0, 0, 0, 0, 0, 0, 0, 127, 255, 255, 255, 255,
        255, 255, 255,
    ];

    {
        /*unsigned 32 and 64-bit values*/
        let mut r = BitReaderBE::new(&data);
        assert_eq!(r.read::<u32>(32).unwrap(), 0);
        assert_eq!(r.read::<u32>(32).unwrap(), 4294967295);
        assert_eq!(r.read::<u32>(32).unwrap(), 2147483648);
        assert_eq!(r.read::<u32>(32).unwrap(), 2147483647);
        assert_eq!(r.read::<u64>(64).unwrap(), 0);
        assert_eq!(r.read::<u64>(64).unwrap(), 0xFFFFFFFFFFFFFFFF);
        assert_eq!(r.read::<u64>(64).unwrap(), 9223372036854775808);
        assert_eq!(r.read::<u64>(64).unwrap(), 9223372036854775807);
    }

    {
        /*signed 32 and 64-bit values*/
        let mut r = BitReaderBE::new(&data);
        assert_eq!(r.read::<i32>(32).unwrap(), 0);
        assert_eq!(r.read::<i32>(32).unwrap(), -1);
        assert_eq!(r.read::<i32>(32).unwrap(), -2147483648);
        assert_eq!(r.read::<i32>(32).unwrap(), 2147483647);
        assert_eq!(r.read::<i64>(64).unwrap(), 0);
        assert_eq!(r.read::<i64>(64).unwrap(), -1);
        assert_eq!(r.read::<i64>(64).unwrap(), -9223372036854775808);
        assert_eq!(r.read::<i64>(64).unwrap(), 9223372036854775807);
    }
}

#[test]
fn test_reader_le() {
    let actual_data: [u8; 4] = [0xB1, 0xED, 0x3B, 0xC1];

    {
        /*reading unsigned values*/
        let mut r = BitReaderLE::new(&actual_data);
        assert!(r.byte_aligned());
        assert_eq!(r.read::<u32>(2).unwrap(), 1);
        assert!(!r.byte_aligned());
        assert_eq!(r.read::<u32>(3).unwrap(), 4);
        assert!(!r.byte_aligned());
        assert_eq!(r.read::<u32>(5).unwrap(), 13);
        assert!(!r.byte_aligned());
        assert_eq!(r.read::<u32>(3).unwrap(), 3);
        assert!(!r.byte_aligned());
        assert_eq!(r.read::<u32>(19).unwrap(), 0x609DF);
        assert!(r.byte_aligned());
        assert!(r.read::<u32>(1).is_err());
    }
    {
        /*skipping bits*/
        let mut r = BitReaderLE::new(&actual_data);
        assert_eq!(r.read::<u32>(2).unwrap(), 1);
        assert!(r.skip(3).is_ok());
        assert_eq!(r.read::<u32>(5).unwrap(), 13);
        assert!(r.skip(3).is_ok());
        assert_eq!(r.read::<u32>(19).unwrap(), 0x609DF);
    }
    {
        /*reading signed values: the sign flag comes first, then the magnitude*/
        let mut r = BitReaderLE::new(&actual_data);
        assert_eq!(r.read_signed::<i32>(2).unwrap(), -2);
        assert_eq!(r.read_signed::<i32>(3).unwrap(), 2);
        assert_eq!(r.read_signed::<i32>(5).unwrap(), -10);
        assert_eq!(r.read_signed::<i32>(3).unwrap(), -3);
        assert_eq!(r.read_signed::<i32>(19).unwrap(), -64273);
    }
    {
        /*reading unary 0 values*/
        let mut r = BitReaderLE::new(&actual_data);
        assert_eq!(r.read_unary0().unwrap(), 1);
        assert_eq!(r.read_unary0().unwrap(), 0);
        assert_eq!(r.read_unary0().unwrap(), 0);
        assert_eq!(r.read_unary0().unwrap(), 2);
        assert_eq!(r.read_unary0().unwrap(), 2);
    }
    {
        /*reading unary 1 values*/
        let mut r = BitReaderLE::new(&actual_data);
        assert_eq!(r.read_unary1().unwrap(), 0);
        assert_eq!(r.read_unary1().unwrap(), 3);
        assert_eq!(r.read_unary1().unwrap(), 0);
        assert_eq!(r.read_unary1().unwrap(), 1);
        assert_eq!(r.read_unary1().unwrap(), 0);
    }
    {
        /*byte aligning*/
        let mut r = BitReaderLE::new(&actual_data);
        assert_eq!(r.read::<u32>(3).unwrap(), 1);
        r.byte_align();
        assert_eq!(r.read::<u32>(3).unwrap(), 5);
        r.byte_align();
        r.byte_align();
        assert_eq!(r.read::<u32>(8).unwrap(), 59);
        r.byte_align();
        assert_eq!(r.read::<u32>(4).unwrap(), 1);
    }
    {
        /*reading bytes, aligned*/
        let mut r = BitReaderLE::new(&actual_data);
        let mut sub_data = [0; 2];
        assert!(r.read_bytes(&mut sub_data).is_ok());
        assert_eq!(&sub_data, b"\xB1\xED");
    }
    {
        /*reading bytes, un-aligned*/
        let mut r = BitReaderLE::new(&actual_data);
        let mut sub_data = [0; 2];
        assert_eq!(r.read::<u32>(4).unwrap(), 1);
        assert!(r.read_bytes(&mut sub_data).is_ok());
        assert_eq!(&sub_data, b"\xDB\xBE");
    }
}

#[test]
fn test_edge_cases_le() {
    let data: Vec<u8> = vec![
        0, 0, 0, 0, 255, 255, 255, 255, 0, 0, 0, 128, 255, 255, 255, 127, 0, 0, 0, 0, 0, 0, 0, 0,
        255, 255, 255, 255, 255, 255, 255, 255, 0, 0, 0, 0, 0, 0, 0, 128, 255, 255, 255, 255, 255,
        255, 255, 127,
    ];
    {
        /*unsigned 32 and 64-bit values*/
        let mut r = BitReaderLE::new(&data);
        assert_eq!(r.read::<u32>(32).unwrap(), 0);
        assert_eq!(r.read::<u32>(32).unwrap(), 4294967295);
        assert_eq!(r.read::<u32>(32).unwrap(), 2147483648);
        assert_eq!(r.read::<u32>(32).unwrap(), 2147483647);
        assert_eq!(r.read::<u64>(64).unwrap(), 0);
        assert_eq!(r.read::<u64>(64).unwrap(), 0xFFFFFFFFFFFFFFFF);
        assert_eq!(r.read::<u64>(64).unwrap(), 9223372036854775808);
        assert_eq!(r.read::<u64>(64).unwrap(), 9223372036854775807);
    }

    {
        /*signed fields: the sign flag is the first bit read, then the magnitude*/
        let mut r = BitReaderLE::new(&data);
        assert_eq!(r.read_signed::<i32>(32).unwrap(), 0);
        assert_eq!(r.read_signed::<i32>(32).unwrap(), -1);
        assert_eq!(r.read_signed::<i32>(32).unwrap(), 1073741824);
        assert_eq!(r.read_signed::<i32>(32).unwrap(), -1073741825);
        assert_eq!(r.read_signed::<i64>(64).unwrap(), 0);
        assert_eq!(r.read_signed::<i64>(64).unwrap(), -1);
        assert_eq!(r.read_signed::<i64>(64).unwrap(), 4611686018427387904);
        assert_eq!(r.read_signed::<i64>(64).unwrap(), -4611686018427387905);
    }
}

#[test]
fn read_past_end_consumes_nothing() {
    let data: [u8; 1] = [0xFF];
    let mut r = BitReaderBE::new(&data);
    assert_eq!(r.read::<u32>(3).unwrap(), 7);
    assert_eq!(r.read::<u32>(6), Err(BitError::EndOfStream));
    assert_eq!(r.read_unary0(), Err(BitError::EndOfStream));
    assert_eq!(r.read::<u32>(5).unwrap(), 31);
    assert!(r.byte_aligned());
}

#[test]
fn bit_counts_out_of_range_are_refused() {
    let data: [u8; 16] = [0; 16];
    let mut r = BitReaderLE::new(&data);
    assert_eq!(r.read::<u64>(65), Err(BitError::InvalidArgument));
    assert_eq!(r.read::<u8>(9), Err(BitError::InvalidArgument));
    assert_eq!(r.read::<i16>(17), Err(BitError::InvalidArgument));
    assert_eq!(r.read_signed::<i32>(1), Err(BitError::InvalidArgument));
    assert_eq!(r.read_signed::<i64>(65), Err(BitError::InvalidArgument));
    assert_eq!(r.read_signed::<i8>(9), Err(BitError::InvalidArgument));
    assert_eq!(r.read_signed::<i8>(8).unwrap(), 0);
    assert_eq!(r.read::<u32>(0).unwrap(), 0);
    assert!(r.byte_aligned());
}

#[test]
fn read_bytes_past_end_is_refused() {
    let data: [u8; 2] = [0x12, 0x34];
    let mut r = BitReaderBE::new(&data);
    assert_eq!(r.read::<u32>(1).unwrap(), 0);
    let mut buf = [0u8; 2];
    assert_eq!(r.read_bytes(&mut buf), Err(BitError::EndOfStream));
    assert_eq!(buf, [0, 0]);
    let mut one = [0u8; 1];
    assert!(r.read_bytes(&mut one).is_ok());
    assert_eq!(one, [0x24]);
}

#[test]
fn empty_source() {
    let data: [u8; 0] = [];
    let mut r = BitReaderLE::new(&data);
    assert!(r.byte_aligned());
    assert_eq!(r.read::<u32>(0).unwrap(), 0);
    assert_eq!(r.read::<u32>(1), Err(BitError::EndOfStream));
    assert_eq!(r.skip(1), Err(BitError::EndOfStream));
    assert_eq!(r.read_unary1(), Err(BitError::EndOfStream));
    r.byte_align();
    assert!(r.byte_aligned());
}
