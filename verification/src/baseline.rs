//! A plain validator to measure the fast one against.
//!
//! It takes the same decisions as [`validate_utf8`](crate::validate::validate_utf8) and
//! differs in the way over ASCII only: two words at a time, and only from a cursor that
//! already stands on a word boundary.

use vstd::prelude::*;
use crate::decode::validate_non_acii_bytes;
use crate::encoding::{
    error_len_of, first_malformation, first_malformation_from, is_ascii_byte,
    is_longest_valid_prefix, lemma_ascii_run, well_formed,
};
use crate::error::Utf8Error;
use crate::laws::{
    lemma_malformation_is_longest_prefix, lemma_no_malformation_iff_well_formed,
    lemma_well_formed_iff_valid_utf8,
};
use crate::word::{contains_nonascii, load_word, word_align_offset, word_bytes, WORD_BYTES};

verus! {

/// Scans `v` with two-word blocks, for a buffer whose first byte lies `align` bytes before a
/// word boundary.
fn scan_two_words(v: &[u8], align: usize) -> (res: Result<(), Utf8Error>)
    ensures
        first_malformation(v@) == match res {
            Ok(()) => None,
            Err(e) => Some(e@),
        },
{
    let mut index: usize = 0;
    let len = v.len();

    let usize_bytes = WORD_BYTES;
    let ascii_block_size = 2 * usize_bytes;
    let blocks_end = if len >= ascii_block_size {
        len - ascii_block_size + 1
    } else {
        0
    };

    while index < len
        invariant
            index <= len,
            len == v.len(),
            usize_bytes == WORD_BYTES,
            ascii_block_size == 2 * WORD_BYTES,
            blocks_end == if len >= ascii_block_size {
                len - ascii_block_size + 1
            } else {
                0
            },
            first_malformation(v@) == first_malformation_from(v@, index as int),
        decreases len - index,
    {
        let first = v[index];
        if first >= 128 {
            assert(v@.subrange(index as int, len as int) =~= v@.skip(index as int));
            match validate_non_acii_bytes(v, index, len) {
                Ok(next) => index = next,
                Err(e) => return Err(e),
            }
        } else {
            let ghost before = index;
            // Ascii case, try to skip forward quickly.
            // When the cursor is aligned, read 2 words of data per iteration
            // until we find a word containing a non-ascii byte.
            if align != usize::MAX && align.wrapping_sub(index) % usize_bytes == 0 {
                while index < blocks_end
                    invariant
                        before <= index <= len,
                        len == v.len(),
                        usize_bytes == WORD_BYTES,
                        ascii_block_size == 2 * WORD_BYTES,
                        blocks_end == if len >= ascii_block_size {
                            len - ascii_block_size + 1
                        } else {
                            0
                        },
                        forall|i: int| before <= i < index ==> is_ascii_byte(#[trigger] v[i]),
                    decreases len - index,
                {
                    let low = load_word(v, index);
                    let high = load_word(v, index + usize_bytes);
                    // break if there is a nonascii byte
                    let zu = contains_nonascii(low);
                    let zv = contains_nonascii(high);
                    if zu || zv {
                        break ;
                    }
                    assert forall|i: int| index <= i < index + ascii_block_size implies is_ascii_byte(
                        #[trigger] v[i],
                    ) by {
                        if i < index + usize_bytes {
                            assert(word_bytes(low)[i - index] == v[i]);
                        } else {
                            assert(word_bytes(high)[i - index - usize_bytes] == v[i]);
                        }
                    }
                    index += ascii_block_size;
                }
                // step from the point where the wordwise loop stopped
                while index < len && v[index] < 128
                    invariant
                        before <= index <= len,
                        len == v.len(),
                        forall|i: int| before <= i < index ==> is_ascii_byte(#[trigger] v[i]),
                    decreases len - index,
                {
                    index += 1;
                }
            } else {
                index += 1;
            }
            proof {
                lemma_ascii_run(v@, before as int, index as int);
            }
        }
    }

    Ok(())
}

/// Validates `v` as UTF-8, with the same verdict as
/// [`validate_utf8`](crate::validate::validate_utf8) on every input.
pub fn validate_utf8_std(v: &[u8]) -> (res: Result<(), Utf8Error>)
    ensures
        res is Ok <==> well_formed(v@),
        res is Ok <==> vstd::utf8::valid_utf8(v@),
        res matches Err(e) ==> {
            &&& e.valid_up_to < v.len()
            &&& is_longest_valid_prefix(v@, e.valid_up_to as int)
            &&& e.error_len == error_len_of(v@.skip(e.valid_up_to as int))
            &&& e.error_len matches Some(n) ==> 1 <= n <= 3 && e.valid_up_to + n <= v.len()
        },
        first_malformation(v@) == match res {
            Ok(()) => None,
            Err(e) => Some(e@),
        },
{
    proof {
        lemma_no_malformation_iff_well_formed(v@);
        lemma_malformation_is_longest_prefix(v@);
        lemma_well_formed_iff_valid_utf8(v@);
    }
    let align = word_align_offset(v);
    scan_two_words(v, align)
}

} // verus!
