use fast_utf8::ascii::{block_end, skip_ascii, skip_blocks, BlockEnds};
use fast_utf8::decode::{utf8_char_width, validate_non_acii_bytes};
use fast_utf8::word::{
    contains_nonascii, has_non_ascii_byte, load_block, load_word, mask_block,
    non_ascii_byte_position, NONASCII_MASK, WORD_BYTES,
};
use fast_utf8::{Statistics, Utf8Error};

#[test]
fn non_ascii_byte_count() {
    let block = [0x7F7F7F7F_7F7F7FFF];
    let res = non_ascii_byte_position(&block);
    assert_eq!(res, 0);
    let block = [0x7F7F7F7F_7F7FFF7F];
    let res = non_ascii_byte_position(&block);
    assert_eq!(res, 1);
    let block = [0x7F7F7F7F_7FFF7F7F];
    let res = non_ascii_byte_position(&block);
    assert_eq!(res, 2);
    let block = [0x7F7F7F7F_FF7F7F7F];
    let res = non_ascii_byte_position(&block);
    assert_eq!(res, 3);
    let block = [0x7F7F7FFF_7F7F7F7F];
    let res = non_ascii_byte_position(&block);
    assert_eq!(res, 4);
    let block = [0x7F7FFF7F_7F7F7F7F];
    let res = non_ascii_byte_position(&block);
    assert_eq!(res, 5);
    let block = [0x7FFF7F7F_7F7F7F7F];
    let res = non_ascii_byte_position(&block);
    assert_eq!(res, 6);
    let block = [0xFF7F7F7F_7F7F7F7F];
    let res = non_ascii_byte_position(&block);
    assert_eq!(res, 7);
    let block = [0x7F7F7F7F_7F7F7F7F, 0x7F7F7F7F_7F7F7FFF];
    let res = non_ascii_byte_position(&block);
    assert_eq!(res, 8);
    let block = [0x7F7F7F7F_7F7F7F7F, 0x7F7F7F7F_7F7FFF7F];
    let res = non_ascii_byte_position(&block);
    assert_eq!(res, 9);
}

#[test]
fn word_constants() {
    assert_eq!(WORD_BYTES, core::mem::size_of::<usize>());
    assert_eq!(NONASCII_MASK, usize::from_ne_bytes([0x80; core::mem::size_of::<usize>()]));
}

#[test]
fn position_of_first_of_several() {
    // bytes 2 and 5 of the second word are not ASCII: the lower one counts
    let block = [0x01020304, 0x0000_8000_0080_0000, usize::MAX];
    assert_eq!(non_ascii_byte_position(&block), 8 + 2);
    // the high bit of the last byte of the last word
    let block = [0, 0, 0, 1 << (usize::BITS - 1)];
    assert_eq!(non_ascii_byte_position(&block), 4 * WORD_BYTES as u32 - 1);
}

#[test]
fn load_word_puts_first_byte_lowest() {
    let bytes: Vec<u8> = (1..=32).collect();
    for at in 0..=(bytes.len() - WORD_BYTES) {
        let word = load_word(&bytes, at);
        for i in 0..WORD_BYTES {
            assert_eq!((word >> (8 * i)) & 0xFF, bytes[at + i] as usize);
        }
    }
    assert_eq!(load_word(&[0x80, 0, 0, 0, 0, 0, 0, 0, 0xFF], 0), 0x80);
}

#[test]
fn load_block_reads_words_in_order() {
    let bytes: Vec<u8> = (0..100).collect();
    let block: [usize; 4] = load_block(&bytes, 3);
    for k in 0..4 {
        assert_eq!(block[k], load_word(&bytes, 3 + k * WORD_BYTES));
    }
    let block: [usize; 8] = load_block(&bytes, 100 - 8 * WORD_BYTES);
    assert_eq!(block[7] >> (usize::BITS - 8), 99);
}

#[test]
fn mask_block_keeps_high_bits() {
    let block = [0usize, usize::MAX, 0x7F7F_7F7F, 0x0080_0000, 0x81];
    assert_eq!(mask_block(&block), [0, NONASCII_MASK, 0, 0x0080_0000, 0x80]);
}

#[test]
fn has_non_ascii_byte_in_any_word() {
    assert!(!has_non_ascii_byte(&[0usize; 8]));
    assert!(!has_non_ascii_byte(&[0x7F7F_7F7Fusize; 2]));
    for k in 0..8 {
        for byte in 0..WORD_BYTES {
            let mut block = [0x4141_4141usize; 8];
            block[k] |= 0x80 << (8 * byte);
            assert!(has_non_ascii_byte(&block));
            assert_eq!(non_ascii_byte_position(&block) as usize, k * WORD_BYTES + byte);
        }
    }
}

#[test]
fn contains_nonascii_in_any_byte() {
    assert!(!contains_nonascii(0));
    assert!(!contains_nonascii(0x7F7F_7F7F));
    assert!(!contains_nonascii(!NONASCII_MASK));
    for byte in 0..WORD_BYTES {
        assert!(contains_nonascii(0x80 << (8 * byte)));
        assert!(contains_nonascii(0xFF << (8 * byte)));
    }
}

#[test]
fn block_end_values() {
    assert_eq!(block_end(100, 16), 85);
    assert_eq!(block_end(16, 16), 1);
    assert_eq!(block_end(15, 16), 0);
    assert_eq!(block_end(0, 64), 0);
    assert_eq!(block_end(usize::MAX, 1), usize::MAX);
    let ends = BlockEnds::new(100);
    assert_eq!(ends.x8, block_end(100, 8 * WORD_BYTES));
    assert_eq!(ends.x4, block_end(100, 4 * WORD_BYTES));
    assert_eq!(ends.x2, block_end(100, 2 * WORD_BYTES));
}

#[test]
fn char_width_of_every_byte() {
    for byte in 0..=255u8 {
        let expected = match byte {
            0x00..=0x7F => 1,
            0x80..=0xC1 => 0,
            0xC2..=0xDF => 2,
            0xE0..=0xEF => 3,
            0xF0..=0xF4 => 4,
            0xF5..=0xFF => 0,
        };
        assert_eq!(utf8_char_width(byte), expected, "width of {byte:#x}");
    }
}

#[test]
fn decode_one_sequence() {
    let text = "aé€𝄞b".as_bytes();
    assert_eq!(validate_non_acii_bytes(text, 1, text.len()), Ok(3));
    assert_eq!(validate_non_acii_bytes(text, 3, text.len()), Ok(6));
    assert_eq!(validate_non_acii_bytes(text, 6, text.len()), Ok(10));
    // continuation bytes begin nothing
    assert_eq!(
        validate_non_acii_bytes(text, 2, text.len()),
        Err(Utf8Error { valid_up_to: 2, error_len: Some(1) })
    );
    // the end may lie inside the buffer
    assert_eq!(
        validate_non_acii_bytes(text, 6, 9),
        Err(Utf8Error { valid_up_to: 6, error_len: None })
    );
    assert_eq!(
        validate_non_acii_bytes(text, 3, 4),
        Err(Utf8Error { valid_up_to: 3, error_len: None })
    );
}

#[test]
fn skip_ascii_stops_on_first_other_byte() {
    for align_offset in 0..2 * WORD_BYTES {
        for len in 1..150 {
            let mut bytes = vec![b'x'; len];
            let ends = BlockEnds::new(bytes.len());
            let mut stats = Statistics::default();
            assert_eq!(skip_ascii::<true>(&bytes, 0, align_offset, &ends, &mut stats), len);
            bytes.push(0xC3);
            bytes.extend_from_slice(&[b'y'; 70]);
            let ends = BlockEnds::new(bytes.len());
            for start in 0..len {
                let mut stats = Statistics::default();
                assert_eq!(
                    skip_ascii::<false>(&bytes, start, align_offset, &ends, &mut stats),
                    len
                );
                assert_eq!(stats.success_blocks_8x, 0);
            }
        }
    }
}

#[test]
fn skip_blocks_counts_clean_blocks() {
    let mut bytes = vec![b'a'; 5 * 2 * WORD_BYTES + 3];
    let bound = block_end(bytes.len(), 2 * WORD_BYTES);
    let run = skip_blocks::<2>(&bytes, 1, bound);
    assert_eq!(run.cursor, 1 + 5 * 2 * WORD_BYTES);
    assert_eq!(run.clean, 5);
    assert!(!run.dirty);
    // a byte that is not ASCII in the fourth block
    let at = 1 + 3 * 2 * WORD_BYTES + WORD_BYTES + 1;
    bytes[at] = 0xE2;
    bytes[at + 1] = 0x82;
    let run = skip_blocks::<2>(&bytes, 1, bound);
    assert_eq!(run.cursor, at);
    assert_eq!(run.clean, 3);
    assert!(run.dirty);
    // a block of eight words meets the same byte
    let run = skip_blocks::<8>(&bytes, 1, block_end(bytes.len(), 8 * WORD_BYTES));
    assert_eq!(run.cursor, at);
    assert_eq!(run.clean, 0);
    assert!(run.dirty);
    // no block fits
    let short = &bytes[..8 * WORD_BYTES];
    let run = skip_blocks::<8>(short, 1, block_end(short.len(), 8 * WORD_BYTES));
    assert_eq!(run.cursor, 1);
    assert_eq!(run.clean, 0);
    assert!(!run.dirty);
}

#[test]
fn room_for_counting() {
    let mut stats = Statistics::default();
    assert!(stats.has_room_for(0));
    assert!(stats.has_room_for(usize::MAX));
    stats.bytewise_checks = 10;
    assert!(stats.has_room_for(usize::MAX - 10));
    assert!(!stats.has_room_for(usize::MAX - 9));
    stats.bytewise_checks = 0;
    stats.non_ascii_checks = usize::MAX;
    assert!(stats.has_room_for(0));
    assert!(!stats.has_room_for(1));
    // the counter that no scan raises does not matter
    stats.non_ascii_checks = 0;
    stats.optimistic_2x_to_8x = usize::MAX;
    assert!(stats.has_room_for(100));
}
