use satisfactory_planner::bits::{required_bits_for, BitBuf, BitReader};
use satisfactory_planner::fields::{
    read_building_count, read_overclock, read_source_rate, write_building_count, write_overclock,
    write_source_rate, RATE_LIMIT,
};
use satisfactory_planner::subbit::{decode_sub_bit_stream, SubBitEncoder};

const PREFIXES: [(u8, u64); 8] = [
    (0, 0b0),
    (1, 0b1),
    (2, 0b01),
    (3, 0b101),
    (4, 0b1010),
    (5, 0b10101),
    (6, 0b101010),
    (7, 0b0011001),
];

fn test_roundtrip<T: Clone + std::fmt::Debug + PartialEq>(
    v: T,
    mut write: impl FnMut(&mut BitBuf, T),
    mut read: impl FnMut(&mut BitReader) -> T,
) {
    for (prefix_len, prefix) in PREFIXES {
        let mut buf = BitBuf::new();
        buf.write_bits(prefix, prefix_len);
        write(&mut buf, v.clone());

        let mut reader = BitReader::new(&buf.buf);
        let _ = reader.read_bits(prefix_len);
        let actual = read(&mut reader);
        if actual != v {
            panic!(
                "roundtrip failed (with prefix len {prefix_len}): \n wrote: {v:?}\n read:  {actual:?}\n Raw vec: {}",
                buf.buf.iter().map(|b| format!("{:08b} ", b)).collect::<String>(),
            );
        }
    }
}

#[test]
fn required_bits() {
    assert_eq!(required_bits_for(1), 0);
    assert_eq!(required_bits_for(2), 1);
    assert_eq!(required_bits_for(3), 2);
    assert_eq!(required_bits_for(4), 2);
    assert_eq!(required_bits_for(5), 3);
    assert_eq!(required_bits_for(6), 3);
    assert_eq!(required_bits_for(7), 3);
    assert_eq!(required_bits_for(8), 3);
    assert_eq!(required_bits_for(9), 4);
    assert_eq!(required_bits_for(15), 4);
    assert_eq!(required_bits_for(16), 4);
    assert_eq!(required_bits_for(17), 5);
    assert_eq!(required_bits_for(32), 5);
    assert_eq!(required_bits_for(33), 6);
}

#[test]
fn required_bits_large() {
    assert_eq!(required_bits_for(u64::MAX), 64);
    assert_eq!(required_bits_for(1 << 63), 63);
    assert_eq!(required_bits_for((1 << 63) + 1), 64);
}

#[test]
fn bitbuf() {
    let mut buf = BitBuf::new();
    buf.write_bits(0b11010, 5);
    assert_eq!(buf.buf, vec![0b11010_000]);
    buf.write_bits(0b011101, 6);
    assert_eq!(buf.buf, vec![0b11010_011, 0b101_00000]);
    buf.write_bits(0b11000_11100_10101, 15);
    assert_eq!(buf.buf, vec![0b11010_011, 0b101_11000, 0b11100_101, 0b01_000000]);

    let mut reader = BitReader::new(&buf.buf);
    assert_eq!(reader.read_bits(3), Some(0b110));
    assert_eq!(reader.read_bits(1), Some(0b1));
    assert_eq!(reader.read_bits(6), Some(0b001110));
    assert_eq!(reader.read_bits(2), Some(0b11));
    assert_eq!(reader.read_bits(15), Some(0b10001_11001_01010));
}

#[test]
fn bitbuf_interleaved_widths() {
    let writes: [(u64, u8); 6] = [(0, 0), (1, 1), (0xABCD, 16), (u64::MAX, 64), (5, 3), (0x1234_5678, 33)];
    let mut buf = BitBuf::new();
    for (v, c) in writes {
        buf.write_bits(v, c);
    }
    assert_eq!(buf.pos, 117);
    let mut reader = BitReader::new(&buf.buf);
    for (v, c) in writes {
        assert_eq!(reader.read_bits(c), Some(v));
    }
    // The fill up to the byte boundary reads as zeros, then the stream ends.
    assert_eq!(reader.read_bits(3), Some(0));
    assert_eq!(reader.read_bits(1), None);
}

#[test]
fn bitbuf_finish_byte() {
    let mut buf = BitBuf::new();
    buf.write_bits(0b101, 3);
    buf.finish_byte();
    buf.write_u8(0xFF);
    assert_eq!(buf.buf, vec![0b101_00000, 0xFF]);
    let mut reader = BitReader::new(&buf.buf);
    assert_eq!(reader.read_bits(3), Some(0b101));
    reader.finish_byte();
    assert_eq!(reader.read_u8(), Some(0xFF));
    assert_eq!(reader.read_u8(), None);
}

#[test]
fn bitbuf_len() {
    fn test(len: usize) {
        test_roundtrip(len, |buf, len| buf.write_len(len), |buf| buf.read_len().unwrap());
    }

    test(0);
    test(1);
    test(5);
    test(16);
    test(100);
    test(126);
    test(127);
    test(128);
    test(129);
    test(190);
    test(23450);
    test(32767);
}

#[test]
fn bitbuf_len_bytes() {
    let mut buf = BitBuf::new();
    buf.write_len(127);
    buf.write_len(128);
    buf.write_len(32767);
    assert_eq!(buf.buf, vec![0x7F, 0x80, 0x80, 0xFF, 0xFF]);
}

#[test]
fn overclock() {
    let test = |v: u32| {
        test_roundtrip(v, |buf, v| write_overclock(buf, v), |buf| read_overclock(buf).unwrap())
    };

    test(100_0000);
    test(050_0000);
    test(150_0000);
    test(200_0000);
    test(250_0000);
    test(001_0000);
    test(133_3333);
    test(249_9999);
}

#[test]
fn overclock_code_lengths() {
    let len = |v: u32| {
        let mut buf = BitBuf::new();
        write_overclock(&mut buf, v);
        buf.pos
    };
    assert_eq!(len(1_000_000), 1);
    assert_eq!(len(500_000), 4);
    assert_eq!(len(1_500_000), 4);
    assert_eq!(len(2_000_000), 4);
    assert_eq!(len(2_500_000), 4);
    assert_eq!(len(1_333_333), 24);
    let mut buf = BitBuf::new();
    write_overclock(&mut buf, 2_000_000);
    assert_eq!(buf.buf, vec![0b1010_0000]);
}

#[test]
fn buildings_count() {
    let test = |v: u32| {
        test_roundtrip(v, |buf, v| write_building_count(buf, v), |buf| read_building_count(buf).unwrap());
    };

    test(1);
    test(2);
    test(3);
    test(4);
    test(5);
    test(6);
    test(7);
    test(8);
    test(9);
    test(10);
    test(11);
    test(12);

    test(13);
    test(14);
    test(15);
    test(16);
    test(17);
    test(81);
    test(195);
    test(277);
    test(512);
    test(523);
    test(524);
    test(525);
    test(526);
    test(999);
    test(1038);
    test(1_234_567);
}

#[test]
fn buildings_count_code_lengths() {
    let len = |v: u32| {
        let mut buf = BitBuf::new();
        write_building_count(&mut buf, v);
        buf.pos
    };
    assert_eq!(len(12), 4);
    assert_eq!(len(13), 12);
    assert_eq!(len(524), 12);
    assert_eq!(len(525), 27);
    let mut buf = BitBuf::new();
    write_building_count(&mut buf, 13);
    assert_eq!(buf.buf, vec![0b110_00000, 0b0000_0000]);
}

#[test]
fn source_rate() {
    let test = |v: u32| test_roundtrip(v, |buf, v| write_source_rate(buf, v), |buf| read_source_rate(buf).unwrap());

    test(30);
    test(60);
    test(120);
    test(240);
    test(300);
    test(480);
    test(600);
    test(960);
    test(1200);
    test(1920);
    test(2400);
    test(4800);

    test(90);
    test(150);
    test(1260);
    test(15330);
    test(15360);
    test(15390);

    test(0);
    test(1);
    test(2);
    test(29);
    test(31);
    test(31);
    test(12345);
    test(72780);
    // Rates are below 2^17: 131072 lies outside what the 17-bit form holds.
    assert!(!(131072 < RATE_LIMIT));
    test(131071);
}

#[test]
fn source_rate_code_lengths() {
    let len = |v: u32| {
        let mut buf = BitBuf::new();
        write_source_rate(&mut buf, v);
        buf.pos
    };
    for v in [30, 60, 120, 240, 300, 480, 600, 960, 1200, 1920, 2400, 4800] {
        assert_eq!(len(v), 4);
    }
    assert_eq!(len(15330), 12);
    assert_eq!(len(15360), 20);
    assert_eq!(len(131071), 20);
    let mut buf = BitBuf::new();
    write_source_rate(&mut buf, 4800);
    assert_eq!(buf.buf, vec![0b1011_0000]);
}

#[test]
fn sub_bit() {
    let test = |v: Vec<(u32, u32)>| {
        test_roundtrip(
            v.clone(),
            |buf, v| {
                let mut coder = SubBitEncoder::new();
                for (val, num_options) in v {
                    coder.encode(buf, val, num_options);
                }
                coder.flush(buf);
            },
            |buf| {
                let num_options_list: Vec<u32> = v.iter().map(|(_, num_options)| *num_options).collect();
                let values = decode_sub_bit_stream(buf, &num_options_list).unwrap();
                values.into_iter().zip(num_options_list).collect()
            },
        )
    };

    test(vec![(17, 32)]);
    test(vec![(2, 5), (3, 4)]);
    test(vec![(2, 5), (3, 4), (0, 3)]);
    test(vec![(5, 7), (1, 6), (2, 5), (1, 4), (2, 3), (0, 2), (0, 1)]);

    let p20 = 2u32.pow(20);
    let p16 = 2u32.pow(16);
    test(vec![(35, p20), (34, p20), (33, p20), (32, p20), (7, 244)]);
    test(vec![(35, p16), (34, p16), (33, p16), (32, p16), (7, 244)]);
}

#[test]
fn sub_bit_sizes() {
    // 3 * 5 = 15 options fit in 4 bits, where 2 + 3 bits would be used one by one.
    let mut buf = BitBuf::new();
    let mut coder = SubBitEncoder::new();
    coder.encode(&mut buf, 2, 3);
    coder.encode(&mut buf, 4, 5);
    coder.flush(&mut buf);
    assert_eq!(buf.pos, 4);
    assert_eq!(buf.buf, vec![0b1110_0000]);
    // A bound of one takes no bits.
    let mut buf = BitBuf::new();
    let mut coder = SubBitEncoder::new();
    coder.encode(&mut buf, 0, 1);
    coder.flush(&mut buf);
    assert_eq!(buf.pos, 0);
    // Five bounds of 2^16 overflow one 64-bit chunk: 64 bits, then 16.
    let mut buf = BitBuf::new();
    let mut coder = SubBitEncoder::new();
    for v in 0..5u32 {
        coder.encode(&mut buf, v, 1 << 16);
    }
    coder.flush(&mut buf);
    assert_eq!(buf.pos, 80);
}

#[test]
fn sub_bit_truncated() {
    let bytes = vec![0xFFu8];
    let mut reader = BitReader::new(&bytes);
    assert_eq!(decode_sub_bit_stream(&mut reader, &vec![1000, 1000]), None);
}
