use uncbv::cbv::{
    block, compression_flag, extract_block, extract_file, extract_file_list, extract_files,
    file_list, file_metadata, header, slice_to_vec, FileMetaData, Header,
};
use uncbv::error::Error;

fn record(name: &[u8], compressed: i32, decompressed: i32, width: usize) -> Vec<u8> {
    let mut bytes = name.to_vec();
    bytes.resize(132, 0);
    bytes.extend_from_slice(&compressed.to_le_bytes());
    bytes.extend_from_slice(&decompressed.to_le_bytes());
    bytes.resize(width, 0xEE);
    bytes
}

fn head(count: u16, width: u8) -> Vec<u8> {
    let mut bytes = vec![0x08, 0x00];
    bytes.extend_from_slice(&count.to_le_bytes());
    bytes.push(width);
    bytes.extend_from_slice(&[0xAA, 0xBB, 0xCC]);
    bytes
}

fn make_block(flag: u8, body: &[u8]) -> Vec<u8> {
    let size = (body.len() + 1) as u16;
    let mut bytes = size.to_le_bytes().to_vec();
    bytes.extend_from_slice(&[0x12, 0x34]);
    bytes.push(flag);
    bytes.extend_from_slice(body);
    bytes
}

fn archive(files: &[(&[u8], Vec<u8>, i32)], width: u8) -> Vec<u8> {
    let mut bytes = head(files.len() as u16, width);
    for (name, region, decompressed) in files {
        bytes.extend_from_slice(&record(name, region.len() as i32, *decompressed, width as usize));
    }
    for (_, region, _) in files {
        bytes.extend_from_slice(region);
    }
    bytes
}

fn huffman_body(codes: &[(u8, &[bool])], symbols: &[u8]) -> Vec<u8> {
    let mut bits: Vec<bool> = vec![];
    for symbol in 0..256usize {
        let code: &[bool] = match codes.iter().find(|code| code.0 as usize == symbol) {
            Some(code) => code.1,
            None => &[],
        };
        for i in 0..4 {
            bits.push((code.len() >> (3 - i)) & 1 == 1);
        }
        bits.extend_from_slice(code);
    }
    for symbol in symbols {
        let code = codes.iter().find(|code| code.0 == *symbol).unwrap();
        bits.extend_from_slice(code.1);
    }
    let mut body = vec![(symbols.len() >> 8) as u8, symbols.len() as u8];
    body.resize(2 + (bits.len() + 7) / 8, 0);
    for (i, &bit) in bits.iter().enumerate() {
        if bit {
            body[2 + i / 8] |= 0x80 >> (i % 8);
        }
    }
    body
}

fn huffman_body_of_abc() -> Vec<u8> {
    huffman_body(&[(b'a', &[false]), (b'b', &[true, false])], b"ab")
}

#[test]
fn header_total_size() {
    assert_eq!(Header::new(3, 140).total_size(), 420);
    assert_eq!(Header::new(0, 140).total_size(), 0);
    assert_eq!(Header::new(65535, 255).total_size(), 65535 * 255);
}

#[test]
fn header_fields() {
    let h = Header::new(1134, 140);
    assert_eq!(h.file_count(), 1134);
    assert_eq!(h.filename_len(), 140);
}

#[test]
fn file_meta_data_new() {
    let file = FileMetaData::new(String::from("a/b"), 10, -20);
    assert_eq!(file.filename, "a/b");
    assert_eq!(file.compressed_size, 10);
    assert_eq!(file.decompressed_size, -20);
}

#[test]
fn slice_to_vec_copies() {
    assert_eq!(slice_to_vec(&[1u8, 2, 3]), vec![1, 2, 3]);
    assert_eq!(slice_to_vec::<u16>(&[]), Vec::<u16>::new());
}

#[test]
fn parse_header() {
    let mut input = head(0x0102, 140);
    input.extend_from_slice(&[9, 9]);
    let (rest, h) = header(&input).unwrap();
    assert_eq!(rest, &[9, 9]);
    assert_eq!(h.file_count(), 0x0102);
    assert_eq!(h.filename_len(), 140);
    assert_eq!(h.total_size(), 0x0102 * 140);
}

#[test]
fn parse_header_of_eight_bytes() {
    let input = head(1, 200);
    let (rest, h) = header(&input).unwrap();
    assert!(rest.is_empty());
    assert_eq!(h.file_count(), 1);
}

#[test]
fn parse_header_with_bad_magic() {
    let mut input = head(1, 140);
    input[0] = 0x09;
    assert_eq!(header(&input).err(), Some(Error::MalformedContainer));
    let mut input = head(1, 140);
    input[1] = 0x01;
    assert_eq!(header(&input).err(), Some(Error::MalformedContainer));
}

#[test]
fn parse_header_cut_short() {
    let input = head(1, 140);
    assert_eq!(header(&input[..7]).err(), Some(Error::MalformedContainer));
    assert_eq!(header(&[]).err(), Some(Error::MalformedContainer));
}

#[test]
fn parse_file_metadata() {
    let mut input = record(b"dir\\name.ext", 0x01020304, -2, 140);
    input.extend_from_slice(&[7]);
    let (rest, file) = file_metadata(&input).unwrap();
    assert_eq!(rest, &[7]);
    assert_eq!(file.filename, "dir/name.ext");
    assert_eq!(file.compressed_size, 0x01020304);
    assert_eq!(file.decompressed_size, -2);
}

#[test]
fn parse_file_metadata_sizes_are_little_endian() {
    let mut input = record(b"x", 0, 0, 140);
    input[132..136].copy_from_slice(&[0x10, 0x00, 0x00, 0x00]);
    input[136..140].copy_from_slice(&[0x00, 0x00, 0x00, 0x80]);
    let (_, file) = file_metadata(&input).unwrap();
    assert_eq!(file.compressed_size, 16);
    assert_eq!(file.decompressed_size, i32::MIN);
    input[136..140].copy_from_slice(&[0xFF, 0xFF, 0xFF, 0x7F]);
    let (_, file) = file_metadata(&input).unwrap();
    assert_eq!(file.decompressed_size, i32::MAX);
}

#[test]
fn parse_file_metadata_cut_short() {
    let input = record(b"x", 1, 1, 139);
    assert_eq!(file_metadata(&input).err(), Some(Error::MalformedContainer));
}

#[test]
fn parse_file_list() {
    let mut input = record(b"one", 1, 2, 150);
    input.extend_from_slice(&record(b"two\\three", 3, 4, 150));
    input.extend_from_slice(&[5, 6]);
    let (rest, files) = file_list(&input, Header::new(2, 150)).unwrap();
    assert_eq!(rest, &[5, 6]);
    assert_eq!(files.len(), 2);
    assert_eq!(files[0].filename, "one");
    assert_eq!(files[0].compressed_size, 1);
    assert_eq!(files[0].decompressed_size, 2);
    assert_eq!(files[1].filename, "two/three");
    assert_eq!(files[1].compressed_size, 3);
    assert_eq!(files[1].decompressed_size, 4);
}

#[test]
fn parse_file_list_of_no_files() {
    let input = [1u8, 2, 3];
    let (rest, files) = file_list(&input, Header::new(0, 10)).unwrap();
    assert_eq!(rest, &[1, 2, 3]);
    assert!(files.is_empty());
}

#[test]
fn parse_file_list_cut_short() {
    let mut input = record(b"one", 1, 2, 140);
    input.extend_from_slice(&record(b"two", 3, 4, 140));
    input.pop();
    assert_eq!(file_list(&input, Header::new(2, 140)).err(), Some(Error::MalformedContainer));
}

#[test]
fn parse_file_list_with_narrow_records() {
    let input = vec![0u8; 1000];
    assert_eq!(file_list(&input, Header::new(2, 139)).err(), Some(Error::MalformedContainer));
}

#[test]
fn parse_extract_file_list() {
    let input = archive(&[(b"a\\b", vec![1, 2, 3], 3), (b"c", vec![], 0)], 140);
    let (rest, files) = extract_file_list(&input).unwrap();
    assert_eq!(rest, &[1, 2, 3]);
    assert_eq!(files.len(), 2);
    assert_eq!(files[0].filename, "a/b");
    assert_eq!(files[0].compressed_size, 3);
    assert_eq!(files[1].filename, "c");
}

#[test]
fn parse_extract_file_list_of_a_bad_archive() {
    assert_eq!(extract_file_list(b"not an archive").err(), Some(Error::MalformedContainer));
    let input = archive(&[(b"a", vec![], 0)], 140);
    assert_eq!(
        extract_file_list(&input[..input.len() - 1]).err(),
        Some(Error::MalformedContainer)
    );
}

#[test]
fn flags() {
    let (rest, flag) = compression_flag(&[0, 9]).unwrap();
    assert_eq!(rest, &[9]);
    assert!(!flag.compressed && !flag.huffman_encoded);
    let (_, flag) = compression_flag(&[1]).unwrap();
    assert!(flag.compressed && !flag.huffman_encoded);
    let (_, flag) = compression_flag(&[2]).unwrap();
    assert!(!flag.compressed && flag.huffman_encoded);
    let (_, flag) = compression_flag(&[3]).unwrap();
    assert!(flag.compressed && flag.huffman_encoded);
}

#[test]
fn flags_out_of_range() {
    assert_eq!(compression_flag(&[4]).err(), Some(Error::MalformedContainer));
    assert_eq!(compression_flag(&[0xFF]).err(), Some(Error::MalformedContainer));
    assert_eq!(compression_flag(&[]).err(), Some(Error::UnexpectedEof));
}

#[test]
fn stored_block() {
    assert_eq!(extract_block(&[0, b'h', b'i']), Ok(b"hi".to_vec()));
    assert_eq!(extract_block(&[0]), Ok(vec![]));
}

#[test]
fn compressed_block() {
    // Two literals, then a copy of four bytes from three back, which is out of reach.
    let payload = [1, 0x00, 0x20, b'a', b'b', 0x40, 0x00];
    assert_eq!(extract_block(&payload), Err(Error::MalformedLzss));
    let payload = [1, 0x00, 0x20, b'a', b'b', 0x02, b'c'];
    assert_eq!(extract_block(&payload), Ok(b"abccccc".to_vec()));
}

#[test]
fn huffman_block() {
    let mut payload = vec![2];
    payload.extend_from_slice(&huffman_body_of_abc());
    assert_eq!(extract_block(&payload), Ok(b"ab".to_vec()));
}

#[test]
fn huffman_and_compressed_block() {
    // The Huffman stage gives "ab": a control word of 0x6261, whose bits
    // find no token since the input ends with it.
    let mut payload = vec![3];
    payload.extend_from_slice(&huffman_body_of_abc());
    assert_eq!(extract_block(&payload), Ok(vec![]));
}

#[test]
fn huffman_and_compressed_block_with_a_run() {
    // The Huffman stage gives a compressed stream: a control word with the
    // third bit set, two literals and a run of four.
    let stream = [0x00, 0x20, b'h', b'i', 0x01, b'!'];
    let codes: [(u8, &[bool]); 6] = [
        (0x00, &[false, false]),
        (0x20, &[false, true]),
        (b'h', &[true, false, false]),
        (b'i', &[true, false, true]),
        (0x01, &[true, true, false]),
        (b'!', &[true, true, true]),
    ];
    let mut payload = vec![3];
    payload.extend_from_slice(&huffman_body(&codes, &stream));
    assert_eq!(extract_block(&payload), Ok(b"hi!!!!".to_vec()));
    payload[0] = 2;
    assert_eq!(extract_block(&payload), Ok(stream.to_vec()));
}

#[test]
fn block_without_flag() {
    assert_eq!(extract_block(&[]), Err(Error::UnexpectedEof));
    assert_eq!(extract_block(&[7, 1, 2]), Err(Error::MalformedContainer));
}

#[test]
fn parse_block() {
    let mut input = make_block(0, b"data");
    input.extend_from_slice(&[1, 2]);
    let (rest, data) = block(&input).unwrap();
    assert_eq!(rest, &[1, 2]);
    assert_eq!(data, b"data");
}

#[test]
fn parse_block_cut_short() {
    let input = make_block(0, b"data");
    assert_eq!(block(&input[..input.len() - 1]).err(), Some(Error::UnexpectedEof));
    assert_eq!(block(&input[..3]).err(), Some(Error::UnexpectedEof));
    assert_eq!(block(&[0, 0, 0, 0]).err(), Some(Error::UnexpectedEof));
}

#[test]
fn file_of_two_blocks() {
    let mut region = make_block(0, b"hello ");
    region.extend_from_slice(&make_block(1, &[0x00, 0x00, b'w', b'o', b'r', b'l', b'd']));
    let file = FileMetaData::new(String::from("f"), region.len() as i32, 11);
    assert_eq!(extract_file(&region, &file), Ok(b"hello world".to_vec()));
}

#[test]
fn file_of_no_blocks() {
    let file = FileMetaData::new(String::from("f"), 0, 0);
    assert_eq!(extract_file(&[], &file), Ok(vec![]));
}

#[test]
fn file_of_the_wrong_size() {
    let region = make_block(0, b"hello");
    let file = FileMetaData::new(String::from("f"), region.len() as i32, 6);
    assert_eq!(extract_file(&region, &file), Err(Error::SizeMismatch));
    let file = FileMetaData::new(String::from("f"), region.len() as i32, -5);
    assert_eq!(extract_file(&region, &file), Err(Error::SizeMismatch));
}

#[test]
fn file_with_a_block_cut_short() {
    let mut region = make_block(0, b"hello");
    region.extend_from_slice(&[3, 0]);
    let file = FileMetaData::new(String::from("f"), region.len() as i32, 5);
    assert_eq!(extract_file(&region, &file), Err(Error::UnexpectedEof));
}

#[test]
fn extract_two_files() {
    let input = archive(
        &[
            (b"dir\\one.txt", make_block(0, b"first"), 5),
            (b"two.txt", make_block(1, &[0x00, 0x80, 0x01, b'z']), 4),
        ],
        140,
    );
    let files = extract_files(&input).unwrap();
    assert_eq!(files.len(), 2);
    assert_eq!(files[0].filename, "dir/one.txt");
    assert_eq!(files[0].content, Ok(b"first".to_vec()));
    assert_eq!(files[1].filename, "two.txt");
    assert_eq!(files[1].content, Ok(b"zzzz".to_vec()));
}

#[test]
fn extract_goes_on_after_a_file_that_fails() {
    let input = archive(
        &[
            (b"bad", make_block(1, &[0x00, 0x80, 0x30, 0x00]), 3),
            (b"wrong size", make_block(0, b"abc"), 4),
            (b"..\\up", make_block(0, b"abc"), 3),
            (b"good", make_block(0, b"abc"), 3),
        ],
        141,
    );
    let files = extract_files(&input).unwrap();
    assert_eq!(files.len(), 4);
    assert_eq!(files[0].content, Err(Error::MalformedLzss));
    assert_eq!(files[1].content, Err(Error::SizeMismatch));
    assert_eq!(files[2].filename, "../up");
    assert_eq!(files[2].content, Err(Error::UnsafePath));
    assert_eq!(files[3].filename, "good");
    assert_eq!(files[3].content, Ok(b"abc".to_vec()));
}

#[test]
fn extract_with_a_file_beyond_the_end() {
    let mut input = archive(
        &[(b"one", make_block(0, b"1"), 1), (b"two", make_block(0, b"22"), 2), (b"three", vec![], 0)],
        140,
    );
    input.pop();
    let files = extract_files(&input).unwrap();
    assert_eq!(files.len(), 3);
    assert_eq!(files[0].content, Ok(b"1".to_vec()));
    assert_eq!(files[1].content, Err(Error::UnexpectedEof));
    assert_eq!(files[2].content, Err(Error::UnexpectedEof));
}

#[test]
fn extract_with_a_negative_size() {
    let mut input = head(2, 140);
    input.extend_from_slice(&record(b"one", -1, 0, 140));
    input.extend_from_slice(&record(b"two", 0, 0, 140));
    let files = extract_files(&input).unwrap();
    assert_eq!(files[0].content, Err(Error::UnexpectedEof));
    assert_eq!(files[1].content, Err(Error::UnexpectedEof));
}

#[test]
fn extract_an_archive_without_files() {
    let input = head(0, 0);
    assert_eq!(extract_files(&input).unwrap().len(), 0);
}

#[test]
fn extract_a_bad_archive() {
    assert_eq!(extract_files(&[0x08]).err(), Some(Error::MalformedContainer));
    let input = archive(&[(b"a", vec![], 0)], 100);
    assert_eq!(extract_files(&input).err(), Some(Error::MalformedContainer));
}

#[test]
fn extracted_names_are_the_listed_names() {
    let input = archive(
        &[
            (b"a\\b\\c", make_block(0, b"x"), 1),
            (b"/abs", vec![], 0),
            (b"d", make_block(0, b""), 9),
        ],
        140,
    );
    let (_, listed) = extract_file_list(&input).unwrap();
    let files = extract_files(&input).unwrap();
    assert_eq!(listed.len(), files.len());
    for (a, b) in listed.iter().zip(files.iter()) {
        assert_eq!(a.filename, b.filename);
        assert!(!a.filename.contains('\\'));
    }
}
