//! The parts of the reader, one by one.

use chd::bitstream::BitReader;
use chd::decompress::cdrom::assemble;
use chd::decompress::flac::store_block;
use chd::decompress::{
    create, init, store_inflated, CdDecompress, CdFlac, Codec, Decompress, Flac, FlacBlock,
    Huffman as HuffmanCodec, Inflate, Lzma, Unknown,
};
use chd::header::Header;
use chd::huffman::Huffman;
use chd::map::{CompressedMap5, HunkMap, UncompressedMap5};
use chd::tags::{make_tag, tag_string};
use chd::utils::{
    copy_from, crc16, crc16_feed, hex_digit_char, hex_string, put_at, read_at, read_be16,
    read_be24, read_be32, read_be48, read_be64, write_be16, write_be24, write_be32, write_be48,
    write_le16, CodecStat, IoStat, Stat,
};
use chd::ChdError;

#[test]
fn big_endian_numbers_are_read() {
    assert_eq!(read_be16(&[0x12, 0x34]), 0x1234);
    assert_eq!(read_be24(&[0x12, 0x34, 0x56]), 0x123456);
    assert_eq!(read_be32(&[0x12, 0x34, 0x56, 0x78]), 0x12345678);
    assert_eq!(read_be48(&[0x12, 0x34, 0x56, 0x78, 0x9a, 0xbc]), 0x123456789abc);
    assert_eq!(
        read_be64(&[0x12, 0x34, 0x56, 0x78, 0x9a, 0xbc, 0xde, 0xf0]),
        0x123456789abcdef0
    );
    assert_eq!(read_be16(&[0xff, 0xff]), u16::MAX);
    assert_eq!(read_be32(&[0xff; 4]), u32::MAX);
    assert_eq!(read_be64(&[0xff; 8]), u64::MAX);
    assert_eq!(read_be64(&[0; 8]), 0);
}

#[test]
fn numbers_are_written() {
    let mut buf = [0xEEu8; 8];
    write_be16(&mut buf, 0x1234);
    assert_eq!(buf, [0x12, 0x34, 0xEE, 0xEE, 0xEE, 0xEE, 0xEE, 0xEE]);
    write_le16(&mut buf, 0x1234);
    assert_eq!(buf, [0x34, 0x12, 0xEE, 0xEE, 0xEE, 0xEE, 0xEE, 0xEE]);
    write_be24(&mut buf, 0xAB123456);
    assert_eq!(buf, [0x12, 0x34, 0x56, 0xEE, 0xEE, 0xEE, 0xEE, 0xEE]);
    write_be32(&mut buf, 0x89ABCDEF);
    assert_eq!(buf, [0x89, 0xAB, 0xCD, 0xEF, 0xEE, 0xEE, 0xEE, 0xEE]);
    write_be48(&mut buf, 0xFFFF_1234_5678_9ABC);
    assert_eq!(buf, [0x12, 0x34, 0x56, 0x78, 0x9A, 0xBC, 0xEE, 0xEE]);
    // what is written is read back
    let mut two = [0u8; 2];
    write_be16(&mut two, 0xBEEF);
    assert_eq!(read_be16(&two), 0xBEEF);
    let mut six = [0u8; 6];
    write_be48(&mut six, 0x0102_0304_0506);
    assert_eq!(read_be48(&six), 0x0102_0304_0506);
}

#[test]
fn bytes_are_copied() {
    let mut to = [1u8, 2, 3, 4];
    assert_eq!(copy_from(&mut to, &[9, 8]), 2);
    assert_eq!(to, [9, 8, 3, 4]);
    assert_eq!(copy_from(&mut to, &[5, 6, 7, 8, 9, 10]), 4);
    assert_eq!(to, [5, 6, 7, 8]);
    assert_eq!(copy_from(&mut to, &[]), 0);
    assert_eq!(to, [5, 6, 7, 8]);
    put_at(&mut to, 1, &[0, 0]);
    assert_eq!(to, [5, 0, 0, 8]);
    put_at(&mut to, 4, &[]);
    assert_eq!(to, [5, 0, 0, 8]);

    let image = [10u8, 11, 12, 13, 14];
    let mut buf = [0u8; 3];
    assert_eq!(read_at(&image, 1, &mut buf), Ok(()));
    assert_eq!(buf, [11, 12, 13]);
    assert_eq!(read_at(&image, 2, &mut buf), Ok(()));
    assert_eq!(buf, [12, 13, 14]);
    assert_eq!(read_at(&image, 3, &mut buf), Err(ChdError::ShortRead));
    assert_eq!(buf, [12, 13, 14]);
    assert_eq!(read_at(&image, u64::MAX, &mut buf), Err(ChdError::ShortRead));
    let mut none = [0u8; 0];
    assert_eq!(read_at(&image, 5, &mut none), Ok(()));
    assert_eq!(read_at(&image, 6, &mut none), Err(ChdError::ShortRead));
}

#[test]
fn crc16_is_ccitt_false() {
    assert_eq!(crc16(b"123456789"), 0x29B1);
    assert_eq!(crc16(b""), 0xFFFF);
    assert_eq!(crc16(&[0]), 0xE1F0);
    let mut state: u32 = 99;
    let mut data = Vec::new();
    for _ in 0..1000 {
        state = state.wrapping_mul(1664525).wrapping_add(1013904223);
        data.push((state >> 24) as u8);
        assert_eq!(crc16(&data), crc16::State::<crc16::CCITT_FALSE>::calculate(&data));
    }
    // the checksum of two runs is that of the runs joined
    assert_eq!(crc16_feed(crc16(&data[..400]), &data[400..]), crc16(&data));
}

#[test]
fn hexadecimal_text() {
    assert_eq!(hex_string(&[]), "");
    assert_eq!(hex_string(&[0x00, 0x0f, 0xa5, 0xff]), "000fa5ff");
    assert_eq!(hex_string(&[0x12; 20]).len(), 40);
    assert_eq!(hex_digit_char(0), '0');
    assert_eq!(hex_digit_char(9), '9');
    assert_eq!(hex_digit_char(10), 'a');
    assert_eq!(hex_digit_char(15), 'f');
}

#[test]
fn counters_start_at_zero() {
    let io = IoStat::default();
    assert_eq!(io, IoStat { iops: 0, bytes: 0, seek: 0 });
    let codec = CodecStat::default();
    assert_eq!(codec, CodecStat { iops: 0, compressed: 0, decompressed: 0 });
    let stat = Stat::default();
    assert_eq!(stat.read, io);
    assert_eq!(stat.chd, io);
    assert_eq!(stat.decompress, [codec; 4]);
}

#[test]
fn tags_are_made_and_shown() {
    assert_eq!(make_tag(['h', 'u', 'f', 'f']), chd::tags::CHD_CODEC_HUFF);
    assert_eq!(make_tag(['f', 'l', 'a', 'c']), chd::tags::CHD_CODEC_FLAC);
    assert_eq!(make_tag(['l', 'z', 'm', 'a']), chd::tags::CHD_CODEC_LZMA);
    assert_eq!(make_tag(['z', 'l', 'i', 'b']), chd::tags::CHD_CODEC_ZLIB);
    assert_eq!(make_tag(['c', 'd', 'f', 'l']), chd::tags::CHD_CODEC_CD_FLAC);
    assert_eq!(make_tag(['c', 'd', 'l', 'z']), chd::tags::CHD_CODEC_CD_LZMA);
    assert_eq!(make_tag(['c', 'd', 'z', 'l']), chd::tags::CHD_CODEC_CD_ZLIB);
    assert_eq!(make_tag(['G', 'D', 'D', 'D']), chd::tags::metadata::HARD_DISK);
    assert_eq!(make_tag(['I', 'D', 'N', 'T']), chd::tags::metadata::HARD_DISK_IDENT);
    assert_eq!(make_tag(['K', 'E', 'Y', ' ']), chd::tags::metadata::HARD_DISK_KEY);
    assert_eq!(make_tag(['C', 'I', 'S', ' ']), chd::tags::metadata::PCMCIA_CIS);
    assert_eq!(make_tag(['C', 'H', 'C', 'D']), chd::tags::metadata::CDROM_OLD);
    assert_eq!(make_tag(['C', 'H', 'T', 'R']), chd::tags::metadata::CDROM_TRACK);
    assert_eq!(make_tag(['C', 'H', 'T', '2']), chd::tags::metadata::CDROM_TRACK2);
    assert_eq!(make_tag(['C', 'H', 'G', 'T']), chd::tags::metadata::GDROM_OLD);
    assert_eq!(make_tag(['C', 'H', 'G', 'D']), chd::tags::metadata::GDROM_TRACK);
    assert_eq!(make_tag(['A', 'V', 'A', 'V']), chd::tags::metadata::AV);
    assert_eq!(make_tag(['A', 'V', 'L', 'D']), chd::tags::metadata::AV_LD);
    assert_eq!(make_tag(['\0', '\0', '\0', '\u{1}']), 1);

    assert_eq!(tag_string(chd::tags::CHD_CODEC_HUFF), "huff (68756666)");
    assert_eq!(tag_string(0x80FF4142), "??AB (80ff4142)");
    assert_eq!(tag_string(0x41), "\0\0\0A (      41)");
    assert_eq!(tag_string(0), "\0\0\0\0 (       0)");
    assert_eq!(tag_string(0x0a000000), "\n\0\0\0 ( a000000)");
    assert_eq!(tag_string(u32::MAX), "???? (ffffffff)");
}

#[test]
fn bits_are_read_from_the_top() {
    let data = [0b1011_0010u8, 0b0100_0001, 0xff];
    let mut bits = BitReader::new(&data);
    assert_eq!(bits.read(0), 0);
    assert_eq!(bits.read(1), 1);
    assert_eq!(bits.read(3), 0b011);
    assert_eq!(bits.read(6), 0b001001);
    assert_eq!(bits.read(0), 0);
    assert!(!bits.overflow());
    assert_eq!(bits.read(14), 0b00_0001_1111_1111);
    assert!(!bits.overflow());
    assert_eq!(bits.read(0), 0);
    assert!(!bits.overflow());
    // past the end zeros are read and the flag stays set
    assert_eq!(bits.read(1), 0);
    assert!(bits.overflow());
    assert_eq!(bits.read(32), 0);
    assert!(bits.overflow());

    let mut bits = BitReader::new(&data);
    assert_eq!(bits.read(20), 0b1011_0010_0100_0001_1111);
    // four bits are left: the rest reads as zeros
    assert_eq!(bits.read(8), 0b1111_0000);
    assert!(bits.overflow());

    let all = [0x12u8, 0x34, 0x56, 0x78, 0x9a];
    let mut bits = BitReader::new(&all);
    assert_eq!(bits.read(32), 0x12345678);
    assert_eq!(bits.read(8), 0x9a);
    assert!(!bits.overflow());
    let mut none = BitReader::new(&[]);
    assert!(!none.overflow());
    assert_eq!(none.read(5), 0);
    assert!(none.overflow());
}

/// Bits, the first one in the highest place of the first byte.
fn pack(fields: &[(u32, u32)]) -> Vec<u8> {
    let mut out = Vec::new();
    let mut cur = 0u8;
    let mut used = 0;
    for (value, width) in fields.iter() {
        for i in (0..*width).rev() {
            cur = (cur << 1) | ((value >> i) & 1) as u8;
            used += 1;
            if used == 8 {
                out.push(cur);
                cur = 0;
                used = 0;
            }
        }
    }
    if used > 0 {
        out.push(cur << (8 - used));
    }
    out
}

#[test]
fn code_lengths_come_as_a_run_length_list() {
    // sixteen symbols of at most eight bits: fields of four bits.
    // two lengths, a run of five zeros, two lengths, a run of seven zeros
    let mut fields = vec![(2, 4), (2, 4), (1, 4), (2, 3), (2, 4), (2, 4), (1, 4), (4, 3)];
    // the codes are handed out in symbol order: 00 01 10 11 for 0, 1, 7, 8
    fields.extend_from_slice(&[(0b10, 2), (0b00, 2), (0b11, 2), (0b01, 2)]);
    let data = pack(&fields);
    let mut bits = BitReader::new(&data);
    let mut huffman = Huffman::new(16, 8);
    assert_eq!(huffman.generation_count(), 0);
    assert_eq!(huffman.import_tree_rle(&mut bits), Ok(()));
    assert_eq!(huffman.decode_one(&mut bits), 7);
    assert_eq!(huffman.decode_one(&mut bits), 0);
    assert_eq!(huffman.decode_one(&mut bits), 8);
    assert_eq!(huffman.decode_one(&mut bits), 1);
    assert_eq!(huffman.generation_count(), 4);
    assert!(!bits.overflow());
    // the two bits that fill up the last byte are the code 00
    assert_eq!(huffman.decode_one(&mut bits), 0);
    assert!(!bits.overflow());
    // past the end the bits are zeros
    assert_eq!(huffman.decode_one(&mut bits), 0);
    assert!(bits.overflow());
    assert_eq!(huffman.generation_count(), 6);
}

#[test]
fn longer_codes_come_first() {
    // lengths 2, 2, 2, 3, then twelve zeros in two runs: one code of three
    // bits has no partner
    let fields = vec![(2, 4), (2, 4), (2, 4), (3, 4), (1, 4), (6, 3), (1, 4), (0, 3)];
    let data = pack(&fields);
    let mut huffman = Huffman::new(16, 8);
    let mut bits = BitReader::new(&data);
    assert_eq!(huffman.import_tree_rle(&mut bits), Err(ChdError::HuffmanInvalidData));
    // lengths 2, 2, 2, 3, 3: the codes of three bits are 000 and 001, those
    // of two bits 01, 10 and 11
    let mut fields = vec![(2, 4), (2, 4), (2, 4), (3, 4), (3, 4), (1, 4), (7, 3), (1, 4), (0, 3)];
    fields.pop();
    fields.pop();
    fields.extend_from_slice(&[(0, 4)]);
    fields.extend_from_slice(&[(0b000, 3), (0b001, 3), (0b01, 2), (0b10, 2), (0b11, 2)]);
    let data = pack(&fields);
    let mut bits = BitReader::new(&data);
    assert_eq!(huffman.import_tree_rle(&mut bits), Ok(()));
    assert_eq!(huffman.decode_one(&mut bits), 3);
    assert_eq!(huffman.decode_one(&mut bits), 4);
    assert_eq!(huffman.decode_one(&mut bits), 0);
    assert_eq!(huffman.decode_one(&mut bits), 1);
    assert_eq!(huffman.decode_one(&mut bits), 2);
}

#[test]
fn broken_lists_of_lengths_are_rejected() {
    let mut huffman = Huffman::new(16, 8);
    // a run that passes the last symbol
    let data = pack(&[(2, 4), (2, 4), (2, 4), (2, 4), (1, 4), (7, 3), (1, 4), (0, 3)]);
    let mut bits = BitReader::new(&data);
    assert_eq!(huffman.import_tree_rle(&mut bits), Err(ChdError::HuffmanInvalidData));
    // a length over eight bits
    let data = pack(&[(9, 4), (1, 4), (7, 3), (1, 4), (2, 3)]);
    let mut bits = BitReader::new(&data);
    assert_eq!(huffman.import_tree_rle(&mut bits), Err(ChdError::HuffmanInvalidData));
    // the stream ends in the list
    let data = pack(&[(2, 4), (2, 4), (2, 4), (2, 4)]);
    let mut bits = BitReader::new(&data);
    assert_eq!(huffman.import_tree_rle(&mut bits), Err(ChdError::HuffmanTooShort));
    assert!(bits.overflow());
    // no symbol has a code: every decoded symbol is 0 and takes no bits
    let data = pack(&[(1, 4), (7, 3), (1, 4), (3, 3), (0xff, 8)]);
    let mut bits = BitReader::new(&data);
    assert_eq!(huffman.import_tree_rle(&mut bits), Ok(()));
    assert_eq!(huffman.decode_one(&mut bits), 0);
    assert_eq!(huffman.decode_one(&mut bits), 0);
    assert_eq!(bits.read(8), 0xff);
}

#[test]
fn code_lengths_come_huffman_coded() {
    // the inner code: the symbols 0 to 3 take two bits each, the other
    // twenty take none: three runs of zeros
    let mut fields = vec![(2, 3), (2, 3), (2, 3), (2, 3), (1, 3), (7, 3), (1, 3), (7, 3)];
    // of eight symbols of at most four bits, whose lengths are below 3 and
    // whose runs of zeros start at the symbol 3: lengths 1, 0, 2, 2, then a
    // run, which the number of symbols cuts, and one more symbol to end
    fields.extend_from_slice(&[(1, 2), (0, 2), (2, 2), (2, 2), (3, 2), (3, 2), (3, 2), (3, 2)]);
    fields.push((0, 2));
    // codes: 00 and 01 for the symbols 2 and 3, and 1 for the symbol 0
    fields.extend_from_slice(&[(1, 1), (0b00, 2), (0b01, 2), (1, 1)]);
    let data = pack(&fields);
    let mut bits = BitReader::new(&data);
    let mut huffman = Huffman::new(8, 4);
    assert_eq!(huffman.import_tree_huffman(&mut bits), Ok(()));
    assert_eq!(huffman.decode_one(&mut bits), 0);
    assert_eq!(huffman.decode_one(&mut bits), 2);
    assert_eq!(huffman.decode_one(&mut bits), 3);
    assert_eq!(huffman.decode_one(&mut bits), 0);
    assert!(!bits.overflow());
}

fn header_bytes(length: u32, version: u32, size: u64, hunkbytes: u32, unitbytes: u32) -> Vec<u8> {
    let mut h = Vec::new();
    h.extend_from_slice(b"MComprHD");
    h.extend_from_slice(&length.to_be_bytes());
    h.extend_from_slice(&version.to_be_bytes());
    for tag in [0x68756666u32, 0x7a6c6962, 0, 7].iter() {
        h.extend_from_slice(&tag.to_be_bytes());
    }
    h.extend_from_slice(&size.to_be_bytes());
    h.extend_from_slice(&0x0102030405060708u64.to_be_bytes());
    h.extend_from_slice(&0x1112131415161718u64.to_be_bytes());
    h.extend_from_slice(&hunkbytes.to_be_bytes());
    h.extend_from_slice(&unitbytes.to_be_bytes());
    h.extend_from_slice(&[1u8; 20]);
    h.extend_from_slice(&[2u8; 20]);
    h.extend_from_slice(&[3u8; 20]);
    h
}

#[test]
fn headers_are_parsed() {
    let h = Header::parse(&header_bytes(124, 5, 44267, 4096, 512)).unwrap();
    assert_eq!(h.length, 124);
    assert_eq!(h.version, 5);
    assert_eq!(h.compressors, [0x68756666, 0x7a6c6962, 0, 7]);
    assert_eq!(h.size, 44267);
    assert_eq!(h.mapoffset, 0x0102030405060708);
    assert_eq!(h.metaoffset, 0x1112131415161718);
    assert_eq!(h.hunkbytes, 4096);
    assert_eq!(h.unitbytes, 512);
    assert_eq!(h.rawsha1, [1u8; 20]);
    assert_eq!(h.sha1, [2u8; 20]);
    assert_eq!(h.parentsha1, [3u8; 20]);
    assert_eq!(h.hunkcount, 11);
    // the number of hunks is the size over the hunk size, rounded up
    for (size, hunkbytes, count) in [
        (0u64, 4096u32, 0u32),
        (1, 4096, 1),
        (4096, 4096, 1),
        (4097, 4096, 2),
        (8192, 4096, 2),
        (u32::MAX as u64, 1, u32::MAX),
        (u32::MAX as u64 * 524288, 524288, u32::MAX),
    ]
    .iter()
    {
        let h = Header::parse(&header_bytes(124, 5, *size, *hunkbytes, 1)).unwrap();
        assert_eq!(h.hunkcount, *count);
    }
    let over = u32::MAX as u64 * 524288 + 1;
    assert_eq!(
        Header::parse(&header_bytes(124, 5, over, 524288, 1)).err(),
        Some(ChdError::HunkCountTooBig { count: 1 << 32, size: over })
    );
    assert_eq!(
        Header::parse(&header_bytes(124, 3, 1, 1, 1)).err(),
        Some(ChdError::UnsupportedVersion(3))
    );
    // the version is looked at before the length
    assert_eq!(
        Header::parse(&header_bytes(100, 6, 1, 1, 1)).err(),
        Some(ChdError::UnsupportedVersion(6))
    );
    assert_eq!(
        Header::parse(&header_bytes(100, 5, 1, 0, 0)).err(),
        Some(ChdError::InvalidHeaderLength(100))
    );
    let mut h = Header::empty();
    h.length = 124;
    assert_eq!(h.read_header_v5(&header_bytes(0, 0, 9, 4, 2)), Ok(()));
    assert_eq!(h.hunkcount, 3);
    assert_eq!(h.version, 0);
    h.length = 123;
    assert_eq!(
        h.read_header_v5(&header_bytes(124, 5, 9, 4, 2)),
        Err(ChdError::InvalidHeaderLength(123))
    );
}

fn map_header(crc: u16, first: u64, widths: [u8; 3]) -> Vec<u8> {
    let mut h = vec![0u8; 4];
    h.extend_from_slice(&first.to_be_bytes()[2..8]);
    h.extend_from_slice(&crc.to_be_bytes());
    h.extend_from_slice(&widths);
    h.push(0);
    h
}

fn records(entries: &[(u8, u32, u64, u16)]) -> Vec<u8> {
    let mut out = Vec::new();
    for (kind, length, offset, sum) in entries.iter() {
        out.push(*kind);
        out.extend_from_slice(&length.to_be_bytes()[1..4]);
        out.extend_from_slice(&offset.to_be_bytes()[2..8]);
        out.extend_from_slice(&sum.to_be_bytes());
    }
    out
}

/// The code lengths of a map in which a symbol is its own code of four bits.
fn plain_code() -> Vec<(u32, u32)> {
    vec![(4, 4); 16]
}

#[test]
fn compressed_maps_are_decoded() {
    let header = Header::parse(&header_bytes(124, 5, 30 * 64, 64, 16)).unwrap();
    assert_eq!(header.hunkcount, 30);
    let mut fields = plain_code();
    // the types: 2; then a run of 2 + 1 + 1 hunks of type 2; then 5, 9, 10,
    // 6, 12, 13, 11, 4, 0; then a run of 2 + 16 + 0 * 16 + 0 + 1 hunks of type 0
    for t in [2, 7, 1, 5, 9, 10, 6, 12, 13, 11, 4, 0, 8, 0, 0].iter() {
        fields.push((*t, 4));
    }
    assert_eq!(1 + 4 + 9 + 19, 33);
    let mut expected = Vec::new();
    let mut cur: u64 = 1000;
    let mut put_codec = |fields: &mut Vec<(u32, u32)>, kind: u8, length: u32, sum: u16| {
        fields.push((length, 10));
        fields.push((sum as u32, 16));
        let rec = (kind, length, cur, sum);
        cur += length as u64;
        rec
    };
    for i in 0..5u32 {
        expected.push(put_codec(&mut fields, 2, 100 + i, 0xA000 + i as u16));
    }
    // a reference to hunk 3, the same again, and the hunk after it
    fields.push((3, 6));
    expected.push((5, 0, 3, 0));
    expected.push((5, 0, 3, 0));
    expected.push((5, 0, 4, 0));
    // the parent from unit 77, the same again, one hunk of four units on,
    // and the parent at the place of this hunk, the twelfth
    fields.push((77, 7));
    expected.push((6, 0, 77, 0));
    expected.push((6, 0, 77, 0));
    expected.push((6, 0, 81, 0));
    expected.push((6, 0, 11 * 4, 0));
    // a hunk stored as it is
    fields.push((0xBEEF, 16));
    expected.push((4, 64, 1000 + 510, 0xBEEF));
    let mut cur = 1000 + 510 + 64;
    for i in 0..17u32 {
        fields.push((i, 10));
        fields.push((i, 16));
        expected.push((0, i, cur, i as u16));
        cur += i as u64;
    }
    assert_eq!(expected.len(), 30);
    let stream = pack(&fields);
    let sum = crc16(&records(&expected));
    let maphdr = map_header(sum, 1000, [10, 6, 7]);
    let map = CompressedMap5::decompress(&header, &maphdr, &stream).ok().unwrap();
    for (i, rec) in expected.iter().enumerate() {
        assert_eq!(map.locate(i), (rec.0, rec.2, rec.1));
    }
    assert_eq!(map.map.len(), 30);
    assert_eq!(map.map[12].crc16, 0xBEEF);
    // a hunk is held against its record
    let hunk = b"some bytes";
    let mut changed = expected.clone();
    changed[0].3 = crc16(hunk);
    let sum = crc16(&records(&changed));
    let mut fields2 = fields.clone();
    fields2[16 + 15 + 1] = (crc16(hunk) as u32, 16);
    let maphdr = map_header(sum, 1000, [10, 6, 7]);
    let map = CompressedMap5::decompress(&header, &maphdr, &pack(&fields2)).ok().unwrap();
    assert_eq!(map.validate(0, hunk), Ok(()));
    assert_eq!(
        map.validate(1, hunk),
        Err(ChdError::HunkCrcMismatch { hunk: 1, calc: crc16(hunk), crc: 0xA001 })
    );
    assert_eq!(map.validate(5, hunk), Err(ChdError::NoChecksum));
    assert_eq!(map.validate(8, hunk), Err(ChdError::NoChecksum));
    let map = HunkMap::Compressed(map);
    assert_eq!(map.locate(7), (5, 4, 0));
    assert_eq!(map.validate(0, hunk), Ok(()));
    // a wrong checksum of the map
    let maphdr = map_header(sum ^ 1, 1000, [10, 6, 7]);
    assert_eq!(
        CompressedMap5::decompress(&header, &maphdr, &pack(&fields2)).err(),
        Some(ChdError::MapCrcMismatch { calc: sum, crc: sum ^ 1 })
    );
    // lengths and offsets are cut to 24 and 48 bits in the records
    let header = Header::parse(&header_bytes(124, 5, 128, 64, 16)).unwrap();
    let mut fields = plain_code();
    fields.extend_from_slice(&[(1, 4), (4, 4)]);
    fields.extend_from_slice(&[(0x7654_3210, 31), (7, 16), (9, 16)]);
    let first = 0xFFFF_FFFF_FFFF;
    let expected = [(1u8, 0x54_3210u32, first, 7u16), (4, 64, (first + 0x7654_3210) & first, 9)];
    let maphdr = map_header(crc16(&records(&expected)), first, [31, 0, 0]);
    let map = CompressedMap5::decompress(&header, &maphdr, &pack(&fields)).ok().unwrap();
    assert_eq!(map.locate(0), (1, first, 0x54_3210));
    assert_eq!(map.locate(1), (4, (first + 0x7654_3210) & first, 64));
}

#[test]
fn widths_and_offsets_of_maps() {
    assert_eq!(CompressedMap5::bit_length(0), Ok(0));
    assert_eq!(CompressedMap5::bit_length(31), Ok(31));
    assert_eq!(CompressedMap5::bit_length(32), Err(ChdError::BitLengthTooBig(32)));
    assert_eq!(CompressedMap5::bit_length(255), Err(ChdError::BitLengthTooBig(255)));
    assert_eq!(CompressedMap5::offset(0), 0);
    assert_eq!(CompressedMap5::offset(7), 84);
    assert_eq!(UncompressedMap5::offset(0), 0);
    assert_eq!(UncompressedMap5::offset(7), 28);
}

#[test]
fn plain_maps_are_read() {
    let mut bytes = header_bytes(124, 5, 3 * 512, 512, 512);
    bytes[16..32].copy_from_slice(&[0; 16]);
    bytes[40..48].copy_from_slice(&124u64.to_be_bytes());
    let header = Header::parse(&bytes).unwrap();
    let mut image = bytes.clone();
    for n in [5u32, 0xFFFF_FFFF, 1].iter() {
        image.extend_from_slice(&n.to_be_bytes());
    }
    let map = UncompressedMap5::read(&image, &header).ok().unwrap();
    assert_eq!(map.locate(0), (4, 5 * 512, 512));
    assert_eq!(map.locate(1), (4, 0xFFFF_FFFF * 512, 512));
    assert_eq!(map.locate(2), (4, 512, 512));
    assert_eq!(map.validate(0, &[]), Err(ChdError::NoChecksum));
    let map = HunkMap::read(&image, &header).ok().unwrap();
    assert_eq!(map.locate(2), (4, 512, 512));
    assert_eq!(map.validate(2, &[1, 2]), Err(ChdError::NoChecksum));
    image.pop();
    assert_eq!(UncompressedMap5::read(&image, &header).err(), Some(ChdError::ShortRead));
    assert_eq!(HunkMap::read(&image, &header).err(), Some(ChdError::ShortRead));
}

#[test]
fn codecs_are_made_for_tags() {
    let header = Header::parse(&header_bytes(124, 5, 0, 2448 * 2, 2448)).unwrap();
    assert!(create(&header, 0).ok().unwrap().is_none());
    assert!(matches!(create(&header, chd::tags::CHD_CODEC_HUFF), Ok(Some(Codec::Huffman(_)))));
    assert!(matches!(create(&header, chd::tags::CHD_CODEC_FLAC), Ok(Some(Codec::Flac(_)))));
    assert!(matches!(create(&header, chd::tags::CHD_CODEC_ZLIB), Ok(Some(Codec::Zlib(_)))));
    assert!(matches!(create(&header, chd::tags::CHD_CODEC_CD_FLAC), Ok(Some(Codec::CdFlac(_)))));
    assert!(matches!(create(&header, chd::tags::CHD_CODEC_CD_LZMA), Ok(Some(Codec::CdLzma(_)))));
    assert!(matches!(create(&header, chd::tags::CHD_CODEC_CD_ZLIB), Ok(Some(Codec::CdZlib(_)))));
    match create(&header, chd::tags::CHD_CODEC_LZMA) {
        Ok(Some(Codec::Lzma(c))) => assert_eq!(c.hunkbytes, 2448 * 2),
        _ => panic!("the tag names the LZMA codec"),
    }
    match create(&header, 0x01020304) {
        Ok(Some(Codec::Unknown(c))) => assert_eq!(c.tag, 0x01020304),
        _ => panic!("the tag names no codec"),
    }
    let slots = init(&header).ok().unwrap();
    assert_eq!(slots.len(), 4);
    assert!(matches!(slots[0], Some(Codec::Huffman(_))));
    assert!(matches!(slots[1], Some(Codec::Zlib(_))));
    assert!(slots[2].is_none());
    assert!(matches!(slots[3], Some(Codec::Unknown(_))));
    // hunks that are no whole frames
    let header = Header::parse(&header_bytes(124, 5, 0, 4096, 512)).unwrap();
    assert_eq!(
        create(&header, chd::tags::CHD_CODEC_CD_FLAC).err(),
        Some(ChdError::InvalidHunkSize(4096))
    );
    assert!(create(&header, chd::tags::CHD_CODEC_CD_ZLIB).is_ok());
    let mut bytes = header_bytes(124, 5, 0, 4096, 512);
    bytes[28..32].copy_from_slice(&chd::tags::CHD_CODEC_CD_FLAC.to_be_bytes());
    let header = Header::parse(&bytes).unwrap();
    assert_eq!(init(&header).err(), Some(ChdError::InvalidHunkSize(4096)));
}

#[test]
fn codecs_decode() {
    let mut dest = [0u8; 4];
    assert_eq!(
        Unknown::new(0x61626364).decompress(&[1, 2, 3], &mut dest),
        Err(ChdError::CodecNotImplemented(0x61626364))
    );
    // a stored block and a block with the fixed code
    assert_eq!(Inflate::new().decompress(&[1, 4, 0, 0xfb, 0xff, 9, 8, 7, 6], &mut dest), Ok(()));
    assert_eq!(dest, [9, 8, 7, 6]);
    let hello = [243u8, 72, 205, 201, 201, 215, 81, 40, 207, 47, 202, 73, 1, 0];
    let mut text = [0u8; 12];
    assert_eq!(Inflate::new().decompress(&hello, &mut text), Ok(()));
    assert_eq!(&text, b"Hello, world");
    let mut short = [0u8; 11];
    assert_eq!(Inflate::new().decompress(&hello, &mut short), Err(ChdError::InflateSize));
    let mut long = [0u8; 13];
    assert_eq!(Inflate::new().decompress(&hello, &mut long), Err(ChdError::InflateSize));
    assert_eq!(Inflate::new().decompress(&[0xff], &mut text), Err(ChdError::InflateFailed));
    assert_eq!(store_inflated(Ok(vec![1, 2, 3, 4]), &mut dest), Ok(()));
    assert_eq!(dest, [1, 2, 3, 4]);
    assert_eq!(store_inflated(Ok(vec![1, 2, 3]), &mut dest), Err(ChdError::InflateSize));
    assert_eq!(
        store_inflated(Err(String::from("broken")), &mut dest),
        Err(ChdError::InflateFailed)
    );
    assert_eq!(dest, [1, 2, 3, 4]);
    let lzma = Lzma::new(4096).ok().unwrap();
    assert_eq!(lzma.hunkbytes, 4096);
    let mut huffman = HuffmanCodec::new();
    assert_eq!(huffman.decompress(&[], &mut dest), Err(ChdError::HuffmanTooShort));
}

#[test]
fn samples_fill_a_hunk() {
    let block = FlacBlock {
        channels: 2,
        duration: 3,
        consumed: 0,
        samples: vec![0x0102, -2, 0x7fff, 0x0304, -32768, 0x12345],
    };
    let mut dest = [0u8; 12];
    assert_eq!(store_block(&block, true, &mut dest), Ok(()));
    assert_eq!(dest, [0x01, 0x02, 0x03, 0x04, 0xff, 0xfe, 0x80, 0x00, 0x7f, 0xff, 0x23, 0x45]);
    assert_eq!(store_block(&block, false, &mut dest), Ok(()));
    assert_eq!(dest, [0x02, 0x01, 0x04, 0x03, 0xfe, 0xff, 0x00, 0x80, 0xff, 0x7f, 0x45, 0x23]);
    let mut more = [0u8; 16];
    assert_eq!(
        store_block(&block, true, &mut more),
        Err(ChdError::FlacDuration { decoded: 3, expected: 4 })
    );
    let mut odd = [0u8; 10];
    assert_eq!(store_block(&block, true, &mut odd), Err(ChdError::InvalidDestination));
    let mono = FlacBlock { channels: 1, duration: 3, consumed: 0, samples: vec![1, 2, 3] };
    assert_eq!(store_block(&mono, true, &mut dest), Err(ChdError::FlacNotStereo(1)));
    let few = FlacBlock { channels: 2, duration: 3, consumed: 0, samples: vec![1, 2, 3, 4, 5] };
    assert_eq!(store_block(&few, true, &mut dest), Err(ChdError::FlacFailed));
    assert_eq!(
        Flac::store_frame(Ok(Some(block)), true, &mut dest),
        Ok(())
    );
    assert_eq!(Flac::store_frame(Ok(None), true, &mut dest), Err(ChdError::FlacTooShort));
    assert_eq!(Flac::SAMPLE_SIZE, 4);
    assert_eq!(CdFlac::SAMPLE_PER_FRAME, 588);

    let mut audio = vec![9u8];
    let block = FlacBlock { channels: 2, duration: 2, consumed: 7, samples: vec![1, 2, 3, 4] };
    assert_eq!(CdFlac::append_frame(Ok(Some(block)), 7, 2, &mut audio), Ok((2, 7)));
    assert_eq!(audio, [9, 0, 1, 0, 3, 0, 2, 0, 4]);
    let block = FlacBlock { channels: 2, duration: 2, consumed: 8, samples: vec![1, 2, 3, 4] };
    assert_eq!(
        CdFlac::append_frame(Ok(Some(block)), 7, 2, &mut audio),
        Err(ChdError::TruncatedInput)
    );
    let block = FlacBlock { channels: 2, duration: 2, consumed: 0, samples: vec![1, 2, 3, 4] };
    assert_eq!(
        CdFlac::append_frame(Ok(Some(block)), 7, 1, &mut audio),
        Err(ChdError::FlacDuration { decoded: 2, expected: 1 })
    );
    let block = FlacBlock { channels: 2, duration: 0, consumed: 0, samples: vec![] };
    assert_eq!(
        CdFlac::append_frame(Ok(Some(block)), 7, 1, &mut audio),
        Err(ChdError::FlacDuration { decoded: 0, expected: 1 })
    );
    let block = FlacBlock { channels: 3, duration: 1, consumed: 0, samples: vec![1, 2, 3] };
    assert_eq!(
        CdFlac::append_frame(Ok(Some(block)), 7, 1, &mut audio),
        Err(ChdError::FlacNotStereo(3))
    );
    assert_eq!(CdFlac::append_frame(Ok(None), 7, 1, &mut audio), Err(ChdError::FlacTooShort));
    assert_eq!(audio, [9, 0, 1, 0, 3, 0, 2, 0, 4]);
}

#[test]
fn frames_are_assembled() {
    let mut sectors = vec![1u8; 2352];
    sectors.extend_from_slice(&[2u8; 2352]);
    let mut sub = vec![3u8; 96];
    sub.extend_from_slice(&[4u8; 96]);
    let mut dest = vec![0u8; 2 * 2448];
    assemble(&sectors, &sub, &[0], 2, &mut dest);
    assert!(dest[..2352].iter().all(|b| *b == 1));
    assert!(dest[2352..2448].iter().all(|b| *b == 3));
    assert!(dest[2448..4800].iter().all(|b| *b == 2));
    assert!(dest[4800..].iter().all(|b| *b == 4));
    // the second frame is flagged: its sector gets the sync pattern and its codes
    assemble(&sectors, &sub, &[2], 2, &mut dest);
    assert!(dest[..2352].iter().all(|b| *b == 1));
    assert_eq!(dest[2448..2460], chd::cd::SYNC_HEADER);
    assert!(dest[2460..2448 + 2064].iter().all(|b| *b == 2));
    let mut sector = vec![2u8; 2352];
    sector[..12].copy_from_slice(&chd::cd::SYNC_HEADER);
    chd::ecc::generate(&mut sector);
    assert!(dest[2448..4800] == sector[..]);
    assert!(sector[2076..].iter().any(|b| *b != 2));
    // flags that are missing count as not set
    assemble(&sectors, &sub, &[], 2, &mut dest);
    assert!(dest[2448..4800].iter().all(|b| *b == 2));
    let hunk = 2 * 2448;
    let mut composite = CdDecompress::construct(Inflate::new(), Inflate::new(), hunk as u32);
    let mut short = vec![0u8; hunk - 1];
    assert_eq!(composite.decompress(&[0, 0, 0], &mut short), Err(ChdError::InvalidDestination));
    let mut whole = vec![0u8; hunk];
    assert_eq!(composite.decompress(&[0, 0], &mut whole), Err(ChdError::TruncatedInput));
    assert_eq!(composite.decompress(&[0, 0, 9, 1], &mut whole), Err(ChdError::TruncatedInput));
    let mut flac = CdFlac::new(hunk as u32);
    assert_eq!(flac.decompress(&[], &mut short), Err(ChdError::InvalidDestination));
    assert_eq!(flac.decompress(&[], &mut whole), Err(ChdError::FlacTooShort));
    assert_eq!(chd::cd::FRAME_SIZE, chd::cd::MAX_SECTOR_DATA + chd::cd::MAX_SUBCODE_DATA);
    assert_eq!(chd::cd::SYNC_NUM_BYTES, chd::cd::SYNC_HEADER.len());
}

/// Bytes that look random.
fn noise(len: usize, seed: u32) -> Vec<u8> {
    let mut state = seed;
    let mut data = Vec::with_capacity(len);
    for _ in 0..len {
        state = state.wrapping_mul(1664525).wrapping_add(1013904223);
        data.push((state >> 24) as u8);
    }
    data
}

#[test]
fn broken_input_gives_errors() {
    // whatever the stored bytes are, a codec answers: mostly with an error
    let header = Header::parse(&header_bytes(124, 5, 0, 2448, 2448)).unwrap();
    let tags = [
        chd::tags::CHD_CODEC_HUFF,
        chd::tags::CHD_CODEC_ZLIB,
        chd::tags::CHD_CODEC_LZMA,
        chd::tags::CHD_CODEC_FLAC,
        chd::tags::CHD_CODEC_CD_ZLIB,
        chd::tags::CHD_CODEC_CD_LZMA,
        chd::tags::CHD_CODEC_CD_FLAC,
    ];
    let mut answers = 0;
    for tag in tags.iter() {
        let mut codec = create(&header, *tag).ok().unwrap().unwrap();
        for seed in 0..300u32 {
            let mut src = noise((seed % 97) as usize, seed * 7 + *tag);
            if seed % 3 == 0 && !src.is_empty() {
                // a start that the codec takes
                src[0] = if *tag == chd::tags::CHD_CODEC_FLAC { b'L' } else { 0 };
            }
            if seed % 5 == 0 && src.len() > 4 {
                src[1] = 0xff;
                src[2] = 0xf8;
            }
            let mut dest = vec![0u8; 2448];
            let _ = codec.decompress(&src, &mut dest);
            assert_eq!(dest.len(), 2448);
            answers += 1;
        }
    }
    assert_eq!(answers, 7 * 300);
    // the same for maps and for whole images
    let header = Header::parse(&header_bytes(124, 5, 1000, 16, 16)).unwrap();
    for seed in 0..300u32 {
        let stream = noise((seed % 61) as usize, seed);
        let mut maphdr = noise(16, seed + 1000);
        maphdr[12] %= 32;
        maphdr[13] %= 32;
        maphdr[14] %= 32;
        let _ = CompressedMap5::decompress(&header, &maphdr, &stream);
        let mut image = header_bytes(124, 5, 1000, 16, 16);
        image[40..48].copy_from_slice(&124u64.to_be_bytes());
        image.extend_from_slice(&((stream.len() as u32).to_be_bytes()));
        image.extend_from_slice(&maphdr[4..]);
        image.extend_from_slice(&stream);
        let _ = chd::Chd::open(image);
        let _ = chd::Chd::open(noise((seed % 200) as usize, seed));
    }
}

/// The start of a FLAC frame of two channels whose first subframe says that
/// a run of zero bits follows.
fn frame_with_a_run() -> Vec<u8> {
    let mut f: Vec<u8> = vec![0xFF, 0xF8, 0x79, 0x18, 0x00, 0x00, 0x0f];
    let mut c: u8 = 0;
    for b in f.iter() {
        c ^= *b;
        for _ in 0..8 {
            c = if c & 0x80 != 0 { (c << 1) ^ 0x07 } else { c << 1 };
        }
    }
    f.push(c);
    f.push(0x01);
    f
}

#[test]
fn input_longer_than_a_map_entry_can_name_is_turned_away() {
    let most = chd::decompress::MAX_COMPRESSED_BYTES;
    assert_eq!(most, (1 << 24) - 1);
    // a byte order, the start of a frame, and zeros up to the greatest length
    let mut src = vec![b'L'];
    src.extend_from_slice(&frame_with_a_run());
    src.resize(most, 0);
    let mut dest = vec![0u8; 64];
    // the decoder runs through the zeros and misses the end of the run
    assert_eq!(Flac::new().decompress(&src, &mut dest), Err(ChdError::FlacFailed));
    src.push(0);
    assert_eq!(Flac::new().decompress(&src, &mut dest), Err(ChdError::InputTooLong));
    // the length is looked at before anything else
    let mut odd = vec![0u8; 63];
    assert_eq!(Flac::new().decompress(&src, &mut odd), Err(ChdError::InputTooLong));
    src[0] = b'X';
    assert_eq!(Flac::new().decompress(&src, &mut dest), Err(ChdError::InputTooLong));

    let mut src = frame_with_a_run();
    src.resize(most, 0);
    let mut frame = vec![0u8; 2448];
    let mut codec = CdFlac::new(2448);
    assert_eq!(codec.decompress(&src, &mut frame), Err(ChdError::FlacFailed));
    src.push(0);
    assert_eq!(codec.decompress(&src, &mut frame), Err(ChdError::InputTooLong));
    // a destination that is no whole frame comes before the length
    let mut short = vec![0u8; 2447];
    assert_eq!(codec.decompress(&src, &mut short), Err(ChdError::InvalidDestination));
    // a destination of no frames wants no samples, but the length still counts
    let mut none: Vec<u8> = Vec::new();
    assert_eq!(codec.decompress(&src, &mut none), Err(ChdError::InputTooLong));
}
