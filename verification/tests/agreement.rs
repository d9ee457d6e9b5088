use fast_utf8::{
    validate_utf8, validate_utf8_aligned, validate_utf8_std, validate_utf8_with_stats,
    Statistics, Utf8Error,
};
use fast_utf8::word::WORD_BYTES;

/// The verdict of the standard library on `bytes`.
fn reference(bytes: &[u8]) -> Result<(), Utf8Error> {
    match core::str::from_utf8(bytes) {
        Ok(_) => Ok(()),
        Err(e) => Err(Utf8Error {
            valid_up_to: e.valid_up_to(),
            error_len: e.error_len().map(|n| n as u8),
        }),
    }
}

/// A small generator of numbers that look random and are the same on every run.
struct Numbers(u64);

impl Numbers {
    fn next(&mut self) -> u64 {
        self.0 = self.0.wrapping_mul(6364136223846793005).wrapping_add(1442695040888963407);
        self.0 >> 33
    }

    fn below(&mut self, n: u64) -> u64 {
        self.next() % n
    }
}

/// Text of about `len` bytes: mostly ASCII, some longer sequences, and now and then, where
/// `broken` is set, a byte that is out of place.
fn mixed_bytes(numbers: &mut Numbers, len: usize, broken: bool) -> Vec<u8> {
    let mut bytes = Vec::new();
    while bytes.len() < len {
        match numbers.below(40) {
            0..=1 => bytes.extend_from_slice("ü".as_bytes()),
            2 => bytes.extend_from_slice("€".as_bytes()),
            3 => bytes.extend_from_slice("𝄞".as_bytes()),
            4 if broken => bytes.push(numbers.below(256) as u8),
            5 if broken => {
                // a sequence without its last byte
                let text = ["é", "€", "𝄞"][numbers.below(3) as usize].as_bytes();
                bytes.extend_from_slice(&text[..text.len() - 1]);
            }
            _ => {
                let run = numbers.below(80) as usize;
                for _ in 0..run {
                    bytes.push(b' ' + numbers.below(90) as u8);
                }
            }
        }
    }
    bytes
}

fn all_ways(bytes: &[u8]) -> Vec<Result<(), Utf8Error>> {
    let mut verdicts = vec![
        validate_utf8(bytes),
        validate_utf8_std(bytes),
        validate_utf8_with_stats(bytes, None),
        validate_utf8_with_stats(bytes, Some(&mut Statistics::default())),
        validate_utf8_aligned(bytes, usize::MAX, None),
    ];
    for align_offset in 0..=2 * WORD_BYTES {
        verdicts.push(validate_utf8_aligned(bytes, align_offset, None));
        verdicts.push(validate_utf8_aligned(
            bytes,
            align_offset,
            Some(&mut Statistics::default()),
        ));
    }
    verdicts
}

#[test]
fn agrees_with_reference_on_short_sequences() {
    for first in 0..=255u8 {
        assert_eq!(validate_utf8(&[first]), reference(&[first]));
        for second in 0..=255u8 {
            let bytes = [first, second];
            assert_eq!(validate_utf8(&bytes), reference(&bytes), "{bytes:x?}");
        }
    }
}

#[test]
fn agrees_with_reference_on_longer_sequences() {
    let edges = [0x00, 0x41, 0x7F, 0x80, 0x8F, 0x90, 0x9F, 0xA0, 0xBF, 0xC0, 0xC2, 0xE0, 0xFF];
    for first in 0xC0..=255u8 {
        for second in 0..=255u8 {
            for third in edges {
                for fourth in edges {
                    let bytes = [first, second, third, fourth];
                    assert_eq!(validate_utf8(&bytes), reference(&bytes), "{bytes:x?}");
                }
            }
        }
    }
}

#[test]
fn agrees_with_reference_behind_ascii() {
    let edges = [0x41, 0x80, 0x8F, 0x90, 0x9F, 0xA0, 0xBF, 0xC2, 0xF5];
    for pad in [1, WORD_BYTES - 1, WORD_BYTES, 2 * WORD_BYTES, 8 * WORD_BYTES + 3] {
        for first in [0x80, 0xC1, 0xC2, 0xDF, 0xE0, 0xE1, 0xED, 0xEE, 0xF0, 0xF1, 0xF4, 0xF5] {
            for second in edges {
                for third in edges {
                    let mut bytes = vec![b'.'; pad];
                    bytes.extend_from_slice(&[first, second, third]);
                    for verdict in all_ways(&bytes) {
                        assert_eq!(verdict, reference(&bytes), "{bytes:x?}");
                    }
                    bytes.extend_from_slice(&[b'.'; 9]);
                    for verdict in all_ways(&bytes) {
                        assert_eq!(verdict, reference(&bytes), "{bytes:x?}");
                    }
                }
            }
        }
    }
}

#[test]
fn agrees_with_reference_on_mixed_text() {
    let mut numbers = Numbers(7);
    for round in 0..400 {
        let len = numbers.below(600) as usize;
        let bytes = mixed_bytes(&mut numbers, len, round % 2 == 0);
        for verdict in all_ways(&bytes) {
            assert_eq!(verdict, reference(&bytes), "{bytes:x?}");
        }
    }
}

#[test]
fn valid_up_to_is_longest_valid_prefix() {
    let mut numbers = Numbers(11);
    for _ in 0..60 {
        let len = numbers.below(120) as usize;
        let bytes = mixed_bytes(&mut numbers, len, true);
        let longest = (0..=bytes.len())
            .rev()
            .find(|&n| validate_utf8(&bytes[..n]).is_ok())
            .unwrap();
        match validate_utf8(&bytes) {
            Ok(()) => assert_eq!(longest, bytes.len()),
            Err(e) => {
                assert_eq!(e.valid_up_to, longest);
                assert!(e.valid_up_to < bytes.len());
            }
        }
    }
    let bytes = b"ab\xE2\x82\xACcd\xE2\x82";
    assert_eq!(validate_utf8(bytes).unwrap_err().valid_up_to, 7);
    assert_eq!(validate_utf8(&bytes[..7]), Ok(()));
    assert!(validate_utf8(&bytes[..8]).is_err());
}

#[test]
fn verdict_does_not_depend_on_address() {
    let mut numbers = Numbers(3);
    for round in 0..40 {
        let len = 50 + numbers.below(300) as usize;
        let bytes = mixed_bytes(&mut numbers, len, round % 3 == 0);
        let expected = reference(&bytes);
        // the same bytes at sixteen addresses in a row
        let mut room = vec![0u8; bytes.len() + 16];
        for shift in 0..16 {
            room[shift..shift + bytes.len()].copy_from_slice(&bytes);
            let here = &room[shift..shift + bytes.len()];
            assert_eq!(validate_utf8(here), expected);
            assert_eq!(validate_utf8_std(here), expected);
            assert_eq!(validate_utf8_with_stats(here, Some(&mut Statistics::default())), expected);
        }
    }
}

#[test]
fn verdict_does_not_depend_on_align_offset() {
    let bytes = "a long run of ASCII, longer than the largest block of words that the fast \
path takes in one step, and then: ü, and again ASCII up to the end\u{0}\u{7f}"
        .as_bytes();
    assert!(bytes.len() > 8 * WORD_BYTES);
    for align_offset in (0..64).chain([usize::MAX - 1, usize::MAX]) {
        assert_eq!(validate_utf8_aligned(bytes, align_offset, None), Ok(()));
        let mut broken = bytes.to_vec();
        broken[100] = 0xFF;
        assert_eq!(
            validate_utf8_aligned(&broken, align_offset, None),
            Err(Utf8Error { valid_up_to: 100, error_len: Some(1) })
        );
    }
}

#[test]
fn valid_chunk_is_not_judged_again() {
    let mut numbers = Numbers(5);
    for _ in 0..60 {
        let len = numbers.below(200) as usize;
        let first = mixed_bytes(&mut numbers, len, false);
        assert_eq!(validate_utf8(&first), Ok(()));
        let len = numbers.below(200) as usize;
        let second = mixed_bytes(&mut numbers, len, true);
        let mut whole = first.clone();
        whole.extend_from_slice(&second);
        let expected = match validate_utf8(&second) {
            Ok(()) => Ok(()),
            Err(e) => Err(Utf8Error {
                valid_up_to: first.len() + e.valid_up_to,
                error_len: e.error_len,
            }),
        };
        assert_eq!(validate_utf8(&whole), expected);
    }
    // a split inside a sequence: the first part is cut short, the whole is not
    let text = "x€y".as_bytes();
    assert_eq!(
        validate_utf8(&text[..2]),
        Err(Utf8Error { valid_up_to: 1, error_len: None })
    );
    assert_eq!(validate_utf8(text), Ok(()));
}

#[test]
fn skipping_the_malformed_unit_resumes_the_scan() {
    let bytes = b"ab\xF1\x80cd\xFFef\xE2\x82";
    let mut at = 0;
    let mut found = Vec::new();
    loop {
        match validate_utf8(&bytes[at..]) {
            Ok(()) => break,
            Err(e) => {
                found.push((at + e.valid_up_to, e.error_len));
                match e.error_len {
                    Some(n) => at += e.valid_up_to + n as usize,
                    None => break,
                }
            }
        }
    }
    assert_eq!(found, vec![(2, Some(2)), (6, Some(1)), (9, None)]);
}

#[test]
fn counters_of_an_aligned_run() {
    // two blocks of eight words, one of four, one of two, a rest of three bytes and a
    // sequence of two
    let ascii = (8 + 8 + 4 + 2) * WORD_BYTES + 3;
    let mut bytes = vec![b'a'; ascii];
    bytes.extend_from_slice("é".as_bytes());
    let mut stats = Statistics::default();
    assert_eq!(validate_utf8_aligned(&bytes, 0, Some(&mut stats)), Ok(()));
    assert_eq!(stats.success_blocks_8x, 2);
    assert_eq!(stats.failed_blocks_8x, 0);
    assert_eq!(stats.success_blocks_4x, 1);
    assert_eq!(stats.failed_blocks_4x, 0);
    assert_eq!(stats.success_blocks_2x, 1);
    assert_eq!(stats.failed_blocks_2x, 0);
    assert_eq!(stats.unaligned_blocks, 0);
    assert_eq!(stats.bytewise_checks, 1);
    assert_eq!(stats.non_ascii_checks, 1);
    assert_eq!(stats.optimistic_2x_to_8x, 0);
}

#[test]
fn counters_of_an_unaligned_run() {
    // three bytes up to the word boundary, then a block of eight words with a sequence in it
    let mut bytes = vec![b'a'; 3 + 8 * WORD_BYTES + 20];
    bytes[3 + 5] = 0xC3;
    bytes[3 + 6] = 0xA9;
    let mut stats = Statistics::default();
    assert_eq!(validate_utf8_aligned(&bytes, 3, Some(&mut stats)), Ok(()));
    assert_eq!(stats.unaligned_blocks, 2);
    assert_eq!(stats.failed_blocks_8x, 1);
    assert_eq!(stats.non_ascii_checks, 1);
    assert_eq!(stats.optimistic_2x_to_8x, 0);
}

#[test]
fn counters_add_up_over_runs() {
    let bytes = "Lörem ipsüm dölör sit ämet.".as_bytes();
    let mut stats = Statistics::default();
    assert_eq!(validate_utf8_with_stats(bytes, Some(&mut stats)), Ok(()));
    assert_eq!(stats.non_ascii_checks, 5);
    assert_eq!(validate_utf8_with_stats(bytes, Some(&mut stats)), Ok(()));
    assert_eq!(stats.non_ascii_checks, 10);
    // the run that fails counts the sequence that it fails on
    assert!(validate_utf8_with_stats(b"\xFF", Some(&mut stats)).is_err());
    assert_eq!(stats.non_ascii_checks, 11);
    assert!(stats.success_blocks_8x <= 2 * bytes.len());
}

#[test]
fn fresh_counters_are_zero() {
    let stats = Statistics::default();
    assert_eq!(stats.success_blocks_8x, 0);
    assert_eq!(stats.failed_blocks_8x, 0);
    assert_eq!(stats.success_blocks_4x, 0);
    assert_eq!(stats.failed_blocks_4x, 0);
    assert_eq!(stats.success_blocks_2x, 0);
    assert_eq!(stats.failed_blocks_2x, 0);
    assert_eq!(stats.unaligned_blocks, 0);
    assert_eq!(stats.bytewise_checks, 0);
    assert_eq!(stats.non_ascii_checks, 0);
    assert_eq!(stats.optimistic_2x_to_8x, 0);
}

#[test]
fn baseline_gives_the_same_errors() {
    assert_eq!(validate_utf8_std(b""), Ok(()));
    assert_eq!(
        validate_utf8_std(b"A\xC3\xA9 \xF1 "),
        Err(Utf8Error { valid_up_to: 4, error_len: Some(1) })
    );
    assert_eq!(
        validate_utf8_std(b"A\xC3\xA9 \xF1\x80 "),
        Err(Utf8Error { valid_up_to: 4, error_len: Some(2) })
    );
    assert_eq!(
        validate_utf8_std(b"0123456789abcdef0123456789abcdef\xE2\x82"),
        Err(Utf8Error { valid_up_to: 32, error_len: None })
    );
}

#[test]
fn counters_without_a_word_boundary() {
    // no boundary is known: the scan goes byte by byte, and only the decoder counts
    let bytes = "plain text, long enough for blocks of every size, with ü and € and 𝄞 in \
it, and then some more plain text up to the end of the buffer"
        .as_bytes();
    let mut stats = Statistics::default();
    assert_eq!(validate_utf8_aligned(bytes, usize::MAX, Some(&mut stats)), Ok(()));
    assert_eq!(stats.non_ascii_checks, 3);
    assert_eq!(stats.success_blocks_8x, 0);
    assert_eq!(stats.failed_blocks_8x, 0);
    assert_eq!(stats.success_blocks_4x, 0);
    assert_eq!(stats.failed_blocks_4x, 0);
    assert_eq!(stats.success_blocks_2x, 0);
    assert_eq!(stats.failed_blocks_2x, 0);
    assert_eq!(stats.unaligned_blocks, 0);
    assert_eq!(stats.bytewise_checks, 0);
}

#[test]
fn counters_of_each_size_of_block() {
    // behind one block of eight words no other of eight fits, behind one of four none of
    // four; the block of two holds the sequence
    let ascii = (8 + 4) * WORD_BYTES + 5;
    let mut bytes = vec![b'a'; ascii];
    bytes.extend_from_slice("é".as_bytes());
    bytes.extend_from_slice(&vec![b'b'; 2 * WORD_BYTES - 7]);
    let mut stats = Statistics::default();
    assert_eq!(validate_utf8_aligned(&bytes, 0, Some(&mut stats)), Ok(()));
    assert_eq!(stats.success_blocks_8x, 1);
    assert_eq!(stats.failed_blocks_8x, 0);
    assert_eq!(stats.success_blocks_4x, 1);
    assert_eq!(stats.failed_blocks_4x, 0);
    assert_eq!(stats.success_blocks_2x, 0);
    assert_eq!(stats.failed_blocks_2x, 1);
    assert_eq!(stats.non_ascii_checks, 1);
    // behind the sequence, one byte before a boundary; nothing fits any more
    assert_eq!(stats.unaligned_blocks, 1);
    assert_eq!(stats.bytewise_checks, 1);
}

#[test]
fn counters_stop_on_the_walk_to_the_boundary() {
    // the sequence stands before the first word boundary
    let bytes = "ab€cd".as_bytes();
    let mut stats = Statistics::default();
    assert_eq!(validate_utf8_aligned(bytes, 5, Some(&mut stats)), Ok(()));
    // behind the sequence the cursor stands on the boundary, and no block fits
    assert_eq!(stats.unaligned_blocks, 1);
    assert_eq!(stats.bytewise_checks, 1);
    assert_eq!(stats.non_ascii_checks, 1);
    // with the boundary one byte further, the walk comes to the end of the buffer
    let mut stats = Statistics::default();
    assert_eq!(validate_utf8_aligned(bytes, 6, Some(&mut stats)), Ok(()));
    assert_eq!(stats.unaligned_blocks, 2);
    assert_eq!(stats.bytewise_checks, 1);
    assert_eq!(stats.non_ascii_checks, 1);
    let mut stats = Statistics::default();
    assert_eq!(validate_utf8_aligned(bytes, 7, Some(&mut stats)), Ok(()));
    assert_eq!(stats.unaligned_blocks, 2);
    assert_eq!(stats.bytewise_checks, 0);
}
