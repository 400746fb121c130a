use uncbv::bits::BitPos;
use uncbv::error::Error;
use uncbv::trie::{create_huffman_tree, huffman_decode, Tree};

fn abc_table() -> [(usize, u16); 256] {
    let mut values = [(0usize, 0u16); 256];
    values[b'a' as usize] = (1, 0b0);
    values[b'b' as usize] = (2, 0b10);
    values[b'c' as usize] = (2, 0b11);
    values
}

fn start() -> BitPos {
    BitPos { byte: 0, bit: 0 }
}

#[test]
fn decode_with_a_small_tree() {
    let tree = create_huffman_tree(abc_table()).ok().unwrap();
    // 0 10 11 0 00..
    let input = [0b0101_1000u8];
    assert_eq!(huffman_decode(&input, start(), &tree, 4), Ok(b"abca".to_vec()));
}

#[test]
fn decode_stops_at_the_size() {
    let tree = create_huffman_tree(abc_table()).ok().unwrap();
    let input = [0b0101_1000u8, 0xFF];
    assert_eq!(huffman_decode(&input, start(), &tree, 2), Ok(b"ab".to_vec()));
    assert_eq!(huffman_decode(&input, start(), &tree, 0), Ok(vec![]));
    assert_eq!(huffman_decode(&[], start(), &tree, 0), Ok(vec![]));
}

#[test]
fn decode_from_a_bit_offset() {
    let tree = create_huffman_tree(abc_table()).ok().unwrap();
    let input = [0b0101_1000u8];
    assert_eq!(
        huffman_decode(&input, BitPos { byte: 0, bit: 1 }, &tree, 5),
        Ok(b"bcaaa".to_vec())
    );
}

#[test]
fn decode_runs_out_of_input() {
    let tree = create_huffman_tree(abc_table()).ok().unwrap();
    assert_eq!(huffman_decode(&[0x00], start(), &tree, 9), Err(Error::UnexpectedEof));
    // The last code is cut in the middle.
    assert_eq!(huffman_decode(&[0x01], start(), &tree, 8), Err(Error::UnexpectedEof));
    assert_eq!(huffman_decode(&[], start(), &tree, 1), Err(Error::UnexpectedEof));
    assert_eq!(
        huffman_decode(&[0x00], BitPos { byte: 4, bit: 0 }, &tree, 1),
        Err(Error::UnexpectedEof)
    );
}

#[test]
fn decode_leaves_the_tree() {
    let mut values = [(0usize, 0u16); 256];
    values[b'a' as usize] = (1, 0);
    let tree = create_huffman_tree(values).ok().unwrap();
    assert_eq!(huffman_decode(&[0b0010_0000], start(), &tree, 2), Ok(b"aa".to_vec()));
    assert_eq!(huffman_decode(&[0b0010_0000], start(), &tree, 3), Err(Error::MalformedHuffman));
}

#[test]
fn decode_with_the_empty_tree() {
    let tree = Tree::new();
    assert_eq!(huffman_decode(&[0x00], start(), &tree, 1), Err(Error::MalformedHuffman));
    assert_eq!(huffman_decode(&[0x00], start(), &tree, 0), Ok(vec![]));
}

#[test]
fn codes_of_sixteen_bits() {
    let mut values = [(0usize, 0u16); 256];
    values[0] = (16, 0xFFFF);
    values[255] = (16, 0xFFFE);
    values[7] = (1, 0);
    let tree = create_huffman_tree(values).ok().unwrap();
    let input = [0xFF, 0xFF, 0x7F, 0xFF, 0x00];
    assert_eq!(huffman_decode(&input, start(), &tree, 4), Ok(vec![0, 7, 255, 7]));
}

#[test]
fn only_the_low_bits_of_a_value_count() {
    let mut values = [(0usize, 0u16); 256];
    values[b'x' as usize] = (2, 0xFFF1);
    let tree = create_huffman_tree(values).ok().unwrap();
    assert_eq!(huffman_decode(&[0b0101_0000], start(), &tree, 2), Ok(b"xx".to_vec()));
}

#[test]
fn two_symbols_with_one_code() {
    let mut values = abc_table();
    values[b'z' as usize] = (2, 0b10);
    assert_eq!(create_huffman_tree(values).err(), Some(Error::MalformedHuffman));
}

#[test]
fn a_code_of_seventeen_bits() {
    let mut values = abc_table();
    values[0] = (17, 1);
    assert_eq!(create_huffman_tree(values).err(), Some(Error::MalformedHuffman));
}

#[test]
fn a_code_that_begins_another() {
    let mut values = [(0usize, 0u16); 256];
    values[b'a' as usize] = (1, 0);
    values[b'b' as usize] = (2, 0b01);
    values[b'c' as usize] = (1, 1);
    let tree = create_huffman_tree(values).ok().unwrap();
    // The shorter code is met first.
    assert_eq!(huffman_decode(&[0b0100_0000], start(), &tree, 3), Ok(b"aca".to_vec()));
}

fn outside_tree(codes: &[(u8, &[bool])]) -> huffman::Tree {
    let mut root = huffman::Tree::new();
    for &(symbol, code) in codes {
        let mut node = &mut root;
        for &bit in code {
            let child = if bit { &mut node.right } else { &mut node.left };
            if child.is_none() {
                *child = Some(Box::new(huffman::Tree::new()));
            }
            node = child.as_mut().unwrap();
        }
        node.value = Some(symbol);
    }
    root
}

#[test]
fn decode_as_the_huffman_crate_decodes() {
    let codes: [(u8, &[bool]); 4] = [
        (b'e', &[false]),
        (b't', &[true, false]),
        (b'a', &[true, true, false]),
        (b'o', &[true, true, true]),
    ];
    let mut values = [(0usize, 0u16); 256];
    values[b'e' as usize] = (1, 0b0);
    values[b't' as usize] = (2, 0b10);
    values[b'a' as usize] = (3, 0b110);
    values[b'o' as usize] = (3, 0b111);
    let tree = create_huffman_tree(values).ok().unwrap();
    let outside = outside_tree(&codes);
    let input: Vec<u8> = (0..64u32).map(|i| (i * 151 + 43) as u8).collect();
    for offset in 0..8u8 {
        for size in [0usize, 1, 7, 50, 150] {
            let expected = huffman::decode_with_offset(&input, offset, &outside, size);
            assert_eq!(expected.len(), size);
            assert_eq!(
                huffman_decode(&input, BitPos { byte: 0, bit: offset }, &tree, size),
                Ok(expected)
            );
        }
    }
}
