//! Machine words as carriers of bytes.
//!
//! A word holds [`WORD_BYTES`] bytes, the first of them in its least significant bits. In
//! that order a byte other than ASCII is found without looking at the bytes one by one: the
//! word is masked down to the high bit of each byte, and the lowest bit that is left belongs
//! to the first such byte.

use vstd::prelude::*;
use vstd::std_specs::bits::{axiom_u64_trailing_zeros, u64_trailing_zeros};
use vstd::pervasive::unreached;
use crate::encoding::is_ascii_byte;

verus! {

/// The number of bytes in a machine word.
pub const WORD_BYTES: usize = (usize::BITS / 8) as usize;

/// A word with the high bit of each of its bytes set, and no other.
pub const NONASCII_MASK: usize = (usize::MAX / 0xFF) * 0x80;

/// The byte that `word` holds at place `i`, counted from the least significant byte.
pub open spec fn word_byte(word: usize, i: usize) -> u8 {
    ((word >> (8 * i)) & 0xFF) as u8
}

/// The bytes that `word` holds, least significant first.
pub open spec fn word_bytes(word: usize) -> Seq<u8> {
    Seq::new(WORD_BYTES as nat, |i: int| word_byte(word, i as usize))
}

/// The bytes that a block of words holds: those of its first word, then those of the next.
pub open spec fn block_bytes(words: Seq<usize>) -> Seq<u8>
    decreases words.len(),
{
    if words.len() == 0 {
        Seq::empty()
    } else {
        block_bytes(words.drop_last()) + word_bytes(words.last())
    }
}

/// Whether every byte of `s` is ASCII.
pub open spec fn all_ascii(s: Seq<u8>) -> bool {
    forall|i: int| 0 <= i < s.len() ==> is_ascii_byte(#[trigger] s[i])
}

/// Whether `m` is the mask of high bits for the width that words have.
spec fn is_high_bits(m: usize) -> bool {
    &&& usize::BITS == 32 ==> m == 0x8080_8080
    &&& usize::BITS == 64 ==> m == 0x8080_8080_8080_8080
}

proof fn lemma_word_constants()
    ensures
        is_high_bits(NONASCII_MASK),
        WORD_BYTES == 4 || WORD_BYTES == 8,
        WORD_BYTES == usize::BITS / 8,
        8 * WORD_BYTES == usize::BITS,
{
}

proof fn lemma_masked_to_zero_is_ascii(w: usize, m: usize, i: usize)
    by (bit_vector)
    requires
        is_high_bits(m),
        w & m == 0,
        i < usize::BITS / 8,
    ensures
        word_byte(w, i) < 0x80,
{
}

proof fn lemma_ascii_bytes_mask_to_zero(w: usize, m: usize)
    by (bit_vector)
    requires
        is_high_bits(m),
        word_byte(w, 0) < 0x80,
        word_byte(w, 1) < 0x80,
        word_byte(w, 2) < 0x80,
        word_byte(w, 3) < 0x80,
        usize::BITS == 64 ==> word_byte(w, 4) < 0x80,
        usize::BITS == 64 ==> word_byte(w, 5) < 0x80,
        usize::BITS == 64 ==> word_byte(w, 6) < 0x80,
        usize::BITS == 64 ==> word_byte(w, 7) < 0x80,
    ensures
        w & m == 0,
{
}

proof fn lemma_set_bit_place(w: usize, m: usize, t: u64)
    by (bit_vector)
    requires
        is_high_bits(m),
        t < 64,
        (((w & m) as u64) >> t) & 1 == 1,
    ensures
        t % 8 == 7,
{
}

proof fn lemma_set_bit_bound(w: usize, m: usize, t: u64)
    by (bit_vector)
    requires
        is_high_bits(m),
        t < 64,
        (((w & m) as u64) >> t) & 1 == 1,
    ensures
        t < usize::BITS,
{
}

proof fn lemma_set_bit_byte(w: usize, m: usize, t: u64)
    by (bit_vector)
    requires
        is_high_bits(m),
        t < 64,
        (((w & m) as u64) >> t) & 1 == 1,
    ensures
        word_byte(w, (t / 8) as usize) >= 0x80,
{
}

proof fn lemma_clear_bit_byte(w: usize, m: usize, i: usize)
    by (bit_vector)
    requires
        is_high_bits(m),
        i < usize::BITS / 8,
        (((w & m) as u64) >> ((8 * i + 7) as u64)) & 1 == 0,
    ensures
        word_byte(w, i) < 0x80,
{
}

proof fn lemma_or_byte(w: usize, b: u8, i: usize, j: usize)
    by (bit_vector)
    requires
        i < usize::BITS / 8,
        j < i,
        w >> (8 * i) == 0,
    ensures
        word_byte(w | ((b as usize) << (8 * i)), j) == word_byte(w, j),
{
}

proof fn lemma_or_new_byte(w: usize, b: u8, i: usize)
    by (bit_vector)
    requires
        i < usize::BITS / 8,
        w >> (8 * i) == 0,
    ensures
        word_byte(w | ((b as usize) << (8 * i)), i) == b,
        i + 1 < usize::BITS / 8 ==> (w | ((b as usize) << (8 * i))) >> (8 * (i + 1)) == 0,
{
}

/// A word is free of high bits exactly if all the bytes that it holds are ASCII.
pub proof fn lemma_word_ascii(w: usize)
    ensures
        (w & NONASCII_MASK == 0) <==> all_ascii(word_bytes(w)),
{
    lemma_word_constants();
    let s = word_bytes(w);
    if w & NONASCII_MASK == 0 {
        assert forall|i: int| 0 <= i < s.len() implies is_ascii_byte(#[trigger] s[i]) by {
            lemma_masked_to_zero_is_ascii(w, NONASCII_MASK, i as usize);
        }
    }
    if all_ascii(s) {
        assert(is_ascii_byte(s[0]) && is_ascii_byte(s[1]) && is_ascii_byte(s[2]) && is_ascii_byte(
            s[3],
        ));
        if usize::BITS == 64 {
            assert(is_ascii_byte(s[4]) && is_ascii_byte(s[5]) && is_ascii_byte(s[6])
                && is_ascii_byte(s[7]));
        }
        lemma_ascii_bytes_mask_to_zero(w, NONASCII_MASK);
    }
}

/// The bytes of a block are as many as its words hold, and the byte at place `i` of word `k`
/// stands at index `k * WORD_BYTES + i`.
pub proof fn lemma_block_bytes_index(words: Seq<usize>, k: int, i: int)
    requires
        0 <= k < words.len(),
        0 <= i < WORD_BYTES,
    ensures
        block_bytes(words).len() == words.len() * WORD_BYTES,
        block_bytes(words)[k * WORD_BYTES + i] == word_byte(words[k], i as usize),
    decreases words.len(),
{
    lemma_word_constants();
    lemma_block_bytes_len(words);
    lemma_block_bytes_len(words.drop_last());
    if k < words.len() - 1 {
        lemma_block_bytes_index(words.drop_last(), k, i);
        assert(k * WORD_BYTES + i < (words.len() - 1) * WORD_BYTES) by (nonlinear_arith)
            requires
                0 <= k < words.len() - 1,
                0 <= i < WORD_BYTES,
        ;
    } else {
        assert(word_bytes(words.last())[i] == word_byte(words[k], i as usize));
    }
}

/// A block of `n` words holds `n * WORD_BYTES` bytes.
pub proof fn lemma_block_bytes_len(words: Seq<usize>)
    ensures
        block_bytes(words).len() == words.len() * WORD_BYTES,
    decreases words.len(),
{
    lemma_word_constants();
    if words.len() > 0 {
        lemma_block_bytes_len(words.drop_last());
    }
}

/// A block holds only ASCII exactly if each of its words does.
pub proof fn lemma_block_ascii(words: Seq<usize>)
    ensures
        all_ascii(block_bytes(words)) <==> forall|k: int|
            0 <= k < words.len() ==> #[trigger] words[k] & NONASCII_MASK == 0,
    decreases words.len(),
{
    if words.len() > 0 {
        let front = words.drop_last();
        let head = block_bytes(front);
        let tail = word_bytes(words.last());
        lemma_block_ascii(front);
        lemma_word_ascii(words.last());
        if all_ascii(head + tail) {
            assert forall|i: int| 0 <= i < head.len() implies is_ascii_byte(#[trigger] head[i]) by {
                assert(head[i] == (head + tail)[i]);
            }
            assert forall|i: int| 0 <= i < tail.len() implies is_ascii_byte(#[trigger] tail[i]) by {
                assert(tail[i] == (head + tail)[head.len() + i]);
            }
            assert forall|k: int| 0 <= k < words.len() implies #[trigger] words[k] & NONASCII_MASK
                == 0 by {
                if k < front.len() {
                    assert(front[k] == words[k]);
                }
            }
        }
        if forall|k: int| 0 <= k < words.len() ==> #[trigger] words[k] & NONASCII_MASK == 0 {
            assert forall|k: int| 0 <= k < front.len() implies #[trigger] front[k] & NONASCII_MASK
                == 0 by {
                assert(front[k] == words[k]);
            }
            assert(words[words.len() - 1] & NONASCII_MASK == 0);
        }
    }
}

proof fn lemma_or_zero(a: usize, b: usize)
    by (bit_vector)
    ensures
        (a | b == 0) <==> (a == 0 && b == 0),
{
}

/// Reads the word that holds the bytes `buf[at..at + WORD_BYTES]`, the first of them in its
/// least significant byte.
pub fn load_word(buf: &[u8], at: usize) -> (word: usize)
    requires
        at + WORD_BYTES <= buf.len(),
    ensures
        word_bytes(word) == buf@.subrange(at as int, at + WORD_BYTES),
{
    let mut word: usize = 0;
    let mut i: usize = 0;
    proof {
        lemma_word_constants();
        assert(0usize >> 0usize == 0) by (bit_vector);
    }
    while i < WORD_BYTES
        invariant
            i <= WORD_BYTES,
            WORD_BYTES == usize::BITS / 8,
            at + WORD_BYTES <= buf.len(),
            i < WORD_BYTES ==> word >> (8 * i) == 0,
            forall|j: usize| j < i ==> word_byte(word, j) == buf[at + j],
        decreases WORD_BYTES - i,
    {
        let byte = buf[at + i];
        let next = word | ((byte as usize) << (8 * i));
        proof {
            lemma_or_new_byte(word, byte, i);
            assert forall|j: usize| j < i implies word_byte(next, j) == buf[at + j] by {
                lemma_or_byte(word, byte, i, j);
            }
            assert(8 * (i + 1) == 8 * i + 8);
        }
        word = next;
        i += 1;
    }
    assert(word_bytes(word) =~= buf@.subrange(at as int, at + WORD_BYTES));
    word
}

/// Reads the `N` words that hold the bytes `buf[at..at + N * WORD_BYTES]`.
pub fn load_block<const N: usize>(buf: &[u8], at: usize) -> (block: [usize; N])
    requires
        at + N * WORD_BYTES <= buf.len(),
    ensures
        block_bytes(block@) == buf@.subrange(at as int, at + N * WORD_BYTES),
{
    let mut block = [0usize;N];
    let mut k: usize = 0;
    let mut from = at;
    proof {
        lemma_word_constants();
        assert(block@.take(0) =~= Seq::<usize>::empty());
        assert(block_bytes(block@.take(0)) =~= buf@.subrange(at as int, at as int));
    }
    while k < N
        invariant
            k <= N,
            from == at + k * WORD_BYTES,
            at + N * WORD_BYTES <= buf.len(),
            block_bytes(block@.take(k as int)) == buf@.subrange(at as int, from as int),
        decreases N - k,
    {
        proof {
            assert((k + 1) * WORD_BYTES <= N * WORD_BYTES) by (nonlinear_arith)
                requires
                    k < N,
            ;
            assert((k + 1) * WORD_BYTES == k * WORD_BYTES + WORD_BYTES) by (nonlinear_arith);
        }
        let ghost before = block@;
        let word = load_word(buf, from);
        block[k] = word;
        proof {
            let now = block@.take(k + 1);
            assert(now.drop_last() =~= before.take(k as int));
            assert(now.last() == word);
            assert(block_bytes(now) =~= buf@.subrange(at as int, from + WORD_BYTES));
        }
        from += WORD_BYTES;
        k += 1;
    }
    assert(block@.take(N as int) =~= block@);
    block
}

/// Masks every byte of every word in `block`, so that only the high bit of each byte is left,
/// which is set in a byte other than ASCII.
pub fn mask_block<const N: usize>(block: &[usize; N]) -> (masked: [usize; N])
    ensures
        forall|k: int| 0 <= k < N ==> #[trigger] masked[k] == block[k] & NONASCII_MASK,
{
    let mut masked = [0usize;N];
    let mut i: usize = 0;

    while i < N
        invariant
            i <= N,
            forall|k: int| 0 <= k < i ==> #[trigger] masked[k] == block[k] & NONASCII_MASK,
        decreases N - i,
    {
        masked[i] = block[i] & NONASCII_MASK;
        i += 1;
    }

    masked
}

/// Returns `true` if any word of `block` holds a byte other than ASCII.
///
/// The words are masked and folded into one, so that the bytes need not be looked at one by
/// one.
pub fn has_non_ascii_byte<const N: usize>(block: &[usize; N]) -> (found: bool)
    ensures
        found == !all_ascii(block_bytes(block@)),
{
    // mask each word in the block
    let vector = mask_block(block);

    let mut i: usize = 0;
    let mut res: usize = 0;
    while i < N
        invariant
            i <= N,
            forall|k: int| 0 <= k < N ==> #[trigger] vector[k] == block[k] & NONASCII_MASK,
            res == 0 <==> forall|k: int| 0 <= k < i ==> #[trigger] block[k] & NONASCII_MASK == 0,
        decreases N - i,
    {
        proof {
            lemma_or_zero(res, vector[i as int]);
        }
        res |= vector[i];
        i += 1;
    }

    proof {
        lemma_block_ascii(block@);
    }
    res > 0
}

/// Returns `true` if `x` holds a byte other than ASCII.
pub fn contains_nonascii(x: usize) -> (found: bool)
    ensures
        found == !all_ascii(word_bytes(x)),
{
    proof {
        lemma_word_ascii(x);
    }
    (x & NONASCII_MASK) != 0
}

/// Determines the index, among the bytes of `block`, of the first byte other than ASCII.
///
/// The number of trailing zero bits of a masked word, divided by eight, is the number of
/// ASCII bytes at its start: the lowest bit that is set is the high bit of the first byte
/// that is not ASCII.
pub fn non_ascii_byte_position(block: &[usize]) -> (pos: u32)
    requires
        !all_ascii(block_bytes(block@)),
        block.len() * WORD_BYTES <= u32::MAX,
    ensures
        pos < block_bytes(block@).len(),
        !is_ascii_byte(block_bytes(block@)[pos as int]),
        forall|j: int| 0 <= j < pos ==> is_ascii_byte(#[trigger] block_bytes(block@)[j]),
{
    let mut i: usize = 0;
    proof {
        lemma_word_constants();
        lemma_block_bytes_len(block@);
    }
    while i < block.len()
        invariant
            i <= block.len(),
            block.len() * WORD_BYTES <= u32::MAX,
            WORD_BYTES == usize::BITS / 8,
            block_bytes(block@).len() == block.len() * WORD_BYTES,
            forall|k: int| 0 <= k < i ==> #[trigger] block[k] & NONASCII_MASK == 0,
        decreases block.len() - i,
    {
        let masked = block[i] & NONASCII_MASK;
        let ctz = (masked as u64).trailing_zeros();
        proof {
            axiom_u64_trailing_zeros(masked as u64);
        }
        if ctz < usize::BITS {
            let byte = ctz / 8;
            proof {
                lemma_first_in_word(block@, i as int, ctz);
                assert(i <= i * WORD_BYTES && i * WORD_BYTES + WORD_BYTES <= block.len()
                    * WORD_BYTES) by (nonlinear_arith)
                    requires
                        i < block.len(),
                        WORD_BYTES >= 1,
                ;
            }
            return byte + (i as u32 * WORD_BYTES as u32);
        }
        proof {
            assert(masked == 0) by {
                if masked != 0 {
                    lemma_set_bit_bound(block[i as int], NONASCII_MASK, ctz as u64);
                }
            }
        }

        i += 1;
    }

    proof {
        lemma_block_ascii(block@);
    }
    unreached()
}

/// Where the first `k` words of a block are free of high bits and word `k`, once masked, has
/// `ctz` trailing zero bits, fewer than a word has bits, the first byte of the block that is
/// not ASCII is byte `ctz / 8` of word `k`.
proof fn lemma_first_in_word(words: Seq<usize>, k: int, ctz: u32)
    requires
        0 <= k < words.len(),
        forall|n: int| 0 <= n < k ==> #[trigger] words[n] & NONASCII_MASK == 0,
        ctz == u64_trailing_zeros((words[k] & NONASCII_MASK) as u64),
        ctz < usize::BITS,
    ensures
        ctz / 8 < WORD_BYTES,
        !is_ascii_byte(block_bytes(words)[k * WORD_BYTES + ctz / 8]),
        forall|j: int|
            0 <= j < k * WORD_BYTES + ctz / 8 ==> is_ascii_byte(#[trigger] block_bytes(words)[j]),
{
    lemma_word_constants();
    let w = words[k];
    let x = (w & NONASCII_MASK) as u64;
    let t = ctz as u64;
    let p = (ctz / 8) as int;
    axiom_u64_trailing_zeros(x);
    assert((x >> t) & 1u64 == 1u64);
    lemma_set_bit_place(w, NONASCII_MASK, t);
    lemma_set_bit_byte(w, NONASCII_MASK, t);
    lemma_block_bytes_index(words, k, p);
    let bytes = block_bytes(words);
    assert forall|j: int| 0 <= j < k * WORD_BYTES + p implies is_ascii_byte(#[trigger] bytes[j]) by {
        let n = j / (WORD_BYTES as int);
        let i = j % (WORD_BYTES as int);
        assert(j == n * WORD_BYTES + i && 0 <= n <= k) by (nonlinear_arith)
            requires
                n == j / (WORD_BYTES as int),
                i == j % (WORD_BYTES as int),
                0 <= j < k * WORD_BYTES + p,
                0 <= p < WORD_BYTES,
                WORD_BYTES > 0,
                0 <= k,
        ;
        lemma_block_bytes_index(words, n, i);
        if n < k {
            assert(words[n] & NONASCII_MASK == 0);
            lemma_masked_to_zero_is_ascii(words[n], NONASCII_MASK, i as usize);
        } else {
            let bit = (8 * i + 7) as u64;
            assert(bit < t);
            assert((x >> bit) & 1u64 == 0u64);
            lemma_clear_bit_byte(w, NONASCII_MASK, i as usize);
        }
    }
}

/// Distance in bytes from the first byte of `buf` to the next address that is a multiple of
/// the word size, as `align_offset` on the buffer's pointer reports it. The value depends on
/// where the buffer lies in memory, and is `usize::MAX` where the platform cannot tell, so
/// nothing is claimed of it.
#[verifier::external_body]
pub(crate) fn word_align_offset(buf: &[u8]) -> (offset: usize) {
    buf.as_ptr().align_offset(WORD_BYTES)
}

} // verus!
