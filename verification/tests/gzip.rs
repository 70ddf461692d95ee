use rgzip::gzip::{
    decode_block_header, decompress, BlockType, DeflateBlockHeader, GzipError, GzipMemberParser,
};

fn member(name: &[u8], block: u8) -> Vec<u8> {
    let mut bytes = vec![0x1f, 0x8b, 8, 8, 0x11, 0x22, 0x33, 0x44, 0, 3];
    bytes.extend_from_slice(name);
    bytes.push(0);
    bytes.push(block);
    bytes.extend_from_slice(&[0xaa, 0xbb]);
    bytes
}

#[test]
fn a_member_is_read() {
    let bytes = member(b"notes.txt", 0b0000_0011);

    let read = decompress(&bytes).unwrap();

    assert_eq!(read.header.id1, 0x1f);
    assert_eq!(read.header.id2, 0x8b);
    assert_eq!(read.header.compression_method, 8);
    assert_eq!(read.header.flags, 8);
    assert_eq!(read.header.mod_time_bytes, [0x11, 0x22, 0x33, 0x44]);
    assert_eq!(read.header.extra_flags, 0);
    assert_eq!(read.header.operating_system, 3);
    assert_eq!(read.header.original_filename, b"notes.txt".to_vec());
    assert_eq!(
        read.block_header,
        DeflateBlockHeader { is_final: true, block_type: BlockType::FixedHuffman }
    );
    assert_eq!(read.payload_offset, 21);
    assert_eq!(bytes[read.payload_offset], 0xaa);
}

#[test]
fn the_parser_reads_field_by_field() {
    let bytes = member(b"a", 0b101);
    let mut parser = GzipMemberParser::new(&bytes);
    assert_eq!(parser.position(), 0);

    let header = parser.parse_header().unwrap();
    assert_eq!(header.original_filename, b"a".to_vec());
    assert_eq!(parser.position(), 12);

    let block = parser.parse_block_header().unwrap();
    assert_eq!(block, DeflateBlockHeader { is_final: true, block_type: BlockType::DynamicHuffman });
    assert_eq!(parser.position(), 13);
}

#[test]
fn an_empty_name_is_accepted() {
    let read = decompress(&member(b"", 1)).unwrap();

    assert!(read.header.original_filename.is_empty());
    assert_eq!(read.block_header.block_type, BlockType::Stored);
    assert_eq!(read.payload_offset, 12);
}

#[test]
fn nonzero_extra_flags_are_tolerated() {
    let mut bytes = member(b"a", 1);
    bytes[8] = 2;

    let read = decompress(&bytes).unwrap();

    assert_eq!(read.header.extra_flags, 2);
}

#[test]
fn a_wrong_first_magic_byte_is_refused_at_once() {
    let mut bytes = member(b"a", 1);
    bytes[0] = 0x1e;

    let mut parser = GzipMemberParser::new(&bytes);
    assert_eq!(parser.parse_header(), Err(GzipError::InvalidMagic));
    assert_eq!(parser.position(), 1);
    assert_eq!(decompress(&bytes), Err(GzipError::InvalidMagic));
}

#[test]
fn a_wrong_second_magic_byte_is_refused_at_once() {
    let mut bytes = member(b"a", 1);
    bytes[1] = 0x8c;
    bytes[2] = 7;

    let mut parser = GzipMemberParser::new(&bytes);
    assert_eq!(parser.parse_header(), Err(GzipError::InvalidMagic));
    assert_eq!(parser.position(), 2);
}

#[test]
fn another_method_than_deflate_is_refused_before_the_flags_are_read() {
    let mut bytes = member(b"a", 1);
    bytes[2] = 7;
    bytes[3] = 0xff;

    let mut parser = GzipMemberParser::new(&bytes);
    assert_eq!(parser.parse_header(), Err(GzipError::UnsupportedCompressionMethod));
    assert_eq!(parser.position(), 3);
    assert_eq!(decompress(&[0x1f, 0x8b, 7]), Err(GzipError::UnsupportedCompressionMethod));
}

#[test]
fn other_flags_than_the_file_name_are_refused() {
    for flags in [0u8, 1, 2, 4, 9, 16, 0xff] {
        let mut bytes = member(b"a", 1);
        bytes[3] = flags;

        let mut parser = GzipMemberParser::new(&bytes);
        assert_eq!(parser.parse_header(), Err(GzipError::UnsupportedFlags));
        assert_eq!(parser.position(), 4);
    }
}

#[test]
fn another_system_than_unix_is_refused() {
    let mut bytes = member(b"a", 1);
    bytes[9] = 0;

    let mut parser = GzipMemberParser::new(&bytes);
    assert_eq!(parser.parse_header(), Err(GzipError::UnsupportedOperatingSystem));
    assert_eq!(parser.position(), 10);
}

#[test]
fn a_header_that_ends_early_is_truncated() {
    let whole = member(b"name", 1);

    for len in 0..15 {
        let mut parser = GzipMemberParser::new(&whole[..len]);
        assert_eq!(parser.parse_header(), Err(GzipError::TruncatedHeader));
        assert_eq!(parser.position(), len);
    }
    let mut parser = GzipMemberParser::new(&whole[..15]);
    assert!(parser.parse_header().is_ok());
}

#[test]
fn a_missing_block_header_is_truncated() {
    let whole = member(b"name", 1);

    assert_eq!(decompress(&whole[..15]), Err(GzipError::TruncatedHeader));
    assert!(decompress(&whole[..16]).is_ok());
}

#[test]
fn a_name_that_is_not_utf8_is_refused() {
    for name in [&[0xff][..], &[0xc3][..], &[0xc0, 0x80][..], &[0xed, 0xa0, 0x80][..], &[b'a', 0x80][..]]
    {
        let bytes = member(name, 1);
        let mut parser = GzipMemberParser::new(&bytes);
        assert_eq!(parser.parse_header(), Err(GzipError::InvalidFilenameEncoding));
        assert_eq!(parser.position(), 10 + name.len() + 1);
    }
}

#[test]
fn a_name_in_utf8_is_accepted() {
    let name = "grüße-日本語-😀.txt".as_bytes();

    let read = decompress(&member(name, 1)).unwrap();

    assert_eq!(read.header.original_filename, name.to_vec());
}

#[test]
fn a_name_without_its_end_is_truncated_whatever_it_holds() {
    let mut bytes = vec![0x1f, 0x8b, 8, 8, 0, 0, 0, 0, 0, 3];
    bytes.extend_from_slice(&[b'a', 0xff, b'b']);

    let mut parser = GzipMemberParser::new(&bytes);
    assert_eq!(parser.parse_header(), Err(GzipError::TruncatedHeader));
    assert_eq!(parser.position(), 13);
}

#[test]
fn block_header_of_a_final_block_with_fixed_codes() {
    assert_eq!(
        decode_block_header(0b00000011),
        Ok(DeflateBlockHeader { is_final: true, block_type: BlockType::FixedHuffman })
    );
}

#[test]
fn block_header_with_the_reserved_type() {
    assert_eq!(decode_block_header(0b00000111), Err(GzipError::ReservedBlockType));
}

#[test]
fn block_header_types() {
    assert_eq!(
        decode_block_header(0b001),
        Ok(DeflateBlockHeader { is_final: true, block_type: BlockType::Stored })
    );
    assert_eq!(
        decode_block_header(0b101),
        Ok(DeflateBlockHeader { is_final: true, block_type: BlockType::DynamicHuffman })
    );
    assert_eq!(
        decode_block_header(0b1111_1011),
        Ok(DeflateBlockHeader { is_final: true, block_type: BlockType::FixedHuffman })
    );
}

#[test]
fn a_block_that_is_not_the_last_is_refused_first() {
    for byte in [0b000u8, 0b010, 0b100, 0b110, 0b1111_1110] {
        assert_eq!(decode_block_header(byte), Err(GzipError::MultiBlockUnsupported));
    }
}

#[test]
fn block_header_errors_reach_the_caller_of_decompress() {
    assert_eq!(decompress(&member(b"a", 0b111)), Err(GzipError::ReservedBlockType));
    assert_eq!(decompress(&member(b"a", 0b010)), Err(GzipError::MultiBlockUnsupported));
}

#[test]
fn the_parser_can_start_behind_other_bytes() {
    let mut bytes = member(b"one", 1);
    let second_at = bytes.len() - 2;
    bytes.truncate(second_at);
    bytes.extend_from_slice(&member(b"two", 0b011));

    let mut parser = GzipMemberParser::new(&bytes);
    let first = parser.parse_header().unwrap();
    parser.parse_block_header().unwrap();
    assert_eq!(parser.position(), second_at);
    let second = parser.parse_header().unwrap();

    assert_eq!(first.original_filename, b"one".to_vec());
    assert_eq!(second.original_filename, b"two".to_vec());
}
