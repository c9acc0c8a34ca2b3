//! A UTF-8 validity check, proved against `vstd::utf8::valid_utf8`.
//!
//! The scan walks the bytes one encoded scalar at a time: a leading byte
//! fixes the width and the admissible range of the first continuation byte
//! (ruling out overlong encodings and the surrogate range), and every later
//! byte of the scalar must be a continuation byte.
use vstd::prelude::*;

use vstd::utf8::*;

verus! {

/// The width of the scalar encoding starting at `i`, or zero when no valid
/// encoding starts there.
fn scalar_len_at(s: &[u8], i: usize) -> (l: usize)
    requires
        i < s@.len(),
    ensures
        l != 0 ==> valid_first_scalar(s@.subrange(i as int, s@.len() as int)) && l
            == length_of_first_scalar(s@.subrange(i as int, s@.len() as int)) && i + l <= s@.len(),
        l == 0 ==> !valid_first_scalar(s@.subrange(i as int, s@.len() as int)),
{
    let ghost suffix = s@.subrange(i as int, s@.len() as int);
    let n = s.len();
    let b0 = s[i];
    proof {
        assert(suffix[0] == b0);
        assert(suffix.len() == n - i);
    }
    if b0 < 0x80 {
        return 1;
    }
    if b0 < 0xc2 {
        // A continuation byte in leading position, or the two leading bytes
        // whose every two-byte encoding is overlong.
        proof {
            if suffix.len() >= 2 && is_continuation_byte(suffix[1]) && is_leading_byte_width_2(
                b0,
            ) {
                let b1 = suffix[1];
                assert(((((b0 & 0x1f) as u32) << 6) | ((b1 & 0x3f) as u32)) < 0x80)
                    by (bit_vector)
                    requires
                        0xc0 <= b0 <= 0xc1,
                ;
            }
        }
        return 0;
    }
    if b0 <= 0xdf {
        if n - i > 1 {
            let b1 = s[i + 1];
            if 0x80 <= b1 && b1 <= 0xbf {
                proof {
                    assert(suffix[1] == b1);
                    assert(((((b0 & 0x1f) as u32) << 6) | ((b1 & 0x3f) as u32)) >= 0x80)
                        by (bit_vector)
                        requires
                            0xc2 <= b0 <= 0xdf,
                    ;
                    assert(((((b0 & 0x1f) as u32) << 6) | ((b1 & 0x3f) as u32)) <= 0x7ff)
                        by (bit_vector);
                }
                return 2;
            }
        }
        return 0;
    }
    if b0 <= 0xef {
        if n - i > 2 {
            let b1 = s[i + 1];
            let b2 = s[i + 2];
            // The admissible first-continuation range shrinks for 0xe0 (else
            // the encoding would be overlong) and for 0xed (else it would
            // fall in the surrogate range).
            let b1_lo: u8 = if b0 == 0xe0 {
                0xa0
            } else {
                0x80
            };
            let b1_hi: u8 = if b0 == 0xed {
                0x9f
            } else {
                0xbf
            };
            if b1_lo <= b1 && b1 <= b1_hi && 0x80 <= b2 && b2 <= 0xbf {
                proof {
                    assert(suffix[1] == b1);
                    assert(suffix[2] == b2);
                    assert({
                        let cp = ((((b0 & 0x0f) as u32) << 12) | (((b1 & 0x3f) as u32) << 6) | ((
                        b2 & 0x3f) as u32));
                        0x800 <= cp <= 0xffff && !(0xd800 <= cp <= 0xdfff)
                    })
                        by (bit_vector)
                        requires
                            0xe0 <= b0 <= 0xef,
                            0x80 <= b1 <= 0xbf,
                            0x80 <= b2 <= 0xbf,
                            b0 == 0xe0 ==> b1 >= 0xa0,
                            b0 == 0xed ==> b1 <= 0x9f,
                            b0 != 0xe0 ==> b0 >= 0xe1,
                    ;
                }
                return 3;
            }
        }
        proof {
            if suffix.len() >= 3 && is_continuation_byte(suffix[1]) && is_continuation_byte(
                suffix[2],
            ) {
                let b1 = suffix[1];
                let b2 = suffix[2];
                assert({
                    let cp = ((((b0 & 0x0f) as u32) << 12) | (((b1 & 0x3f) as u32) << 6) | ((b2
                    & 0x3f) as u32));
                    (b0 == 0xe0 && b1 < 0xa0 ==> cp < 0x800) && (b0 == 0xed && b1 > 0x9f
                        ==> 0xd800 <= cp <= 0xdfff)
                })
                    by (bit_vector)
                    requires
                        0x80 <= b1 <= 0xbf,
                        0x80 <= b2 <= 0xbf,
                ;
            }
        }
        return 0;
    }
    if b0 <= 0xf4 {
        if n - i > 3 {
            let b1 = s[i + 1];
            let b2 = s[i + 2];
            let b3 = s[i + 3];
            // The admissible first-continuation range shrinks for 0xf0 (else
            // overlong) and for 0xf4 (else beyond the last Unicode scalar).
            let b1_lo: u8 = if b0 == 0xf0 {
                0x90
            } else {
                0x80
            };
            let b1_hi: u8 = if b0 == 0xf4 {
                0x8f
            } else {
                0xbf
            };
            if b1_lo <= b1 && b1 <= b1_hi && 0x80 <= b2 && b2 <= 0xbf && 0x80 <= b3 && b3 <= 0xbf {
                proof {
                    assert(suffix[1] == b1);
                    assert(suffix[2] == b2);
                    assert(suffix[3] == b3);
                    assert({
                        let cp = ((((b0 & 0x07) as u32) << 18) | (((b1 & 0x3f) as u32) << 12) | (((
                        b2 & 0x3f) as u32) << 6) | ((b3 & 0x3f) as u32));
                        0x10000 <= cp <= 0x10ffff
                    })
                        by (bit_vector)
                        requires
                            0xf0 <= b0 <= 0xf4,
                            0x80 <= b1 <= 0xbf,
                            0x80 <= b2 <= 0xbf,
                            0x80 <= b3 <= 0xbf,
                            b0 == 0xf0 ==> b1 >= 0x90,
                            b0 == 0xf4 ==> b1 <= 0x8f,
                    ;
                }
                return 4;
            }
        }
        proof {
            if suffix.len() >= 4 && is_continuation_byte(suffix[1]) && is_continuation_byte(
                suffix[2],
            ) && is_continuation_byte(suffix[3]) {
                let b1 = suffix[1];
                let b2 = suffix[2];
                let b3 = suffix[3];
                assert({
                    let cp = ((((b0 & 0x07) as u32) << 18) | (((b1 & 0x3f) as u32) << 12) | (((b2
                    & 0x3f) as u32) << 6) | ((b3 & 0x3f) as u32));
                    (b0 == 0xf0 && b1 < 0x90 ==> cp < 0x10000) && (b0 == 0xf4 && b1 > 0x8f
                        ==> cp > 0x10ffff)
                })
                    by (bit_vector)
                    requires
                        0x80 <= b1 <= 0xbf,
                        0x80 <= b2 <= 0xbf,
                        0x80 <= b3 <= 0xbf,
                ;
            }
        }
        return 0;
    }
    // 0xf5 through 0xf7 head only values beyond the last Unicode scalar;
    // 0xf8 and up are no leading bytes at all.
    proof {
        if suffix.len() >= 4 && is_leading_byte_width_4(b0) && is_continuation_byte(suffix[1])
            && is_continuation_byte(suffix[2]) && is_continuation_byte(suffix[3]) {
            let b1 = suffix[1];
            let b2 = suffix[2];
            let b3 = suffix[3];
            assert(((((b0 & 0x07) as u32) << 18) | (((b1 & 0x3f) as u32) << 12) | (((b2
                & 0x3f) as u32) << 6) | ((b3 & 0x3f) as u32)) > 0x10ffff)
                by (bit_vector)
                requires
                    0xf5 <= b0 <= 0xf7,
            ;
        }
    }
    0
}

/// Bytes that are all ASCII are always valid UTF-8.
pub proof fn lemma_ascii_valid_utf8(bytes: Seq<u8>)
    requires
        forall|i: int| 0 <= i < bytes.len() ==> #[trigger] bytes[i] < 0x80,
    ensures
        valid_utf8(bytes),
{
    assert(bytes.subrange(0, 0) =~= Seq::<u8>::empty());
    assert(partial_valid_utf8(bytes, 0));
    assert(forall|i: int|
        0 <= i < bytes.len() ==> is_leading_byte_width_1(#[trigger] bytes[i]));
    partial_valid_utf8_extend_ascii_block(bytes, 0, bytes.len() as int);
    assert(bytes.subrange(0, bytes.len() as int) =~= bytes);
}

/// True exactly when the bytes are a valid UTF-8 encoding.
pub fn utf8_ok(bytes: &[u8]) -> (r: bool)
    ensures
        r == valid_utf8(bytes@),
{
    let n = bytes.len();
    let mut i: usize = 0;
    while i < n
        invariant
            i <= n,
            n == bytes@.len(),
            partial_valid_utf8(bytes@, i as int),
        decreases n - i,
    {
        let l = scalar_len_at(bytes, i);
        if l == 0 {
            proof {
                partial_valid_partial_invalid_utf8(bytes@, i as int);
            }
            return false;
        }
        proof {
            partial_valid_utf8_extend(bytes@, i as int);
        }
        i += l;
    }
    proof {
        assert(bytes@.subrange(0, i as int) =~= bytes@);
    }
    true
}

} // verus!
