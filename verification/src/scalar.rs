//! Single scalar values: their encoding as bytes, and the decoding of the last
//! scalar of well-formed text.

use vstd::prelude::*;
use vstd::utf8::*;

use crate::utf8::is_continuation;

verus! {

/// Encoding distributes over concatenation.
pub proof fn lemma_encode_utf8_concat(a: Seq<char>, b: Seq<char>)
    ensures
        encode_utf8(a + b) == encode_utf8(a) + encode_utf8(b),
    decreases a.len(),
{
    if a.len() == 0 {
        assert(a + b =~= b);
        assert(encode_utf8(a) + encode_utf8(b) =~= encode_utf8(b));
    } else {
        lemma_encode_utf8_concat(a.drop_first(), b);
        assert((a + b).drop_first() =~= a.drop_first() + b);
        assert(encode_utf8(a + b) =~= encode_utf8(a) + encode_utf8(b));
    }
}

/// Two well-formed texts, one after the other, are well-formed, and decode to
/// the characters of the first followed by those of the second.
pub proof fn lemma_decode_utf8_concat(a: Seq<u8>, b: Seq<u8>)
    requires
        valid_utf8(a),
        valid_utf8(b),
    ensures
        valid_utf8(a + b),
        decode_utf8(a + b) == decode_utf8(a) + decode_utf8(b),
{
    valid_utf8_concat(a, b);
    decode_utf8_encode_utf8(a);
    decode_utf8_encode_utf8(b);
    lemma_encode_utf8_concat(decode_utf8(a), decode_utf8(b));
    encode_utf8_decode_utf8(decode_utf8(a) + decode_utf8(b));
}

/// The encoding of one character is well-formed text that decodes to it.
pub proof fn lemma_encode_scalar_is_text(c: char)
    ensures
        encode_utf8(seq![c]) == encode_scalar(c as u32),
        valid_utf8(encode_scalar(c as u32)),
        decode_utf8(encode_scalar(c as u32)) == seq![c],
        1 <= encode_scalar(c as u32).len() <= 4,
{
    let s = seq![c];
    assert(s.drop_first() =~= Seq::<char>::empty());
    assert(encode_utf8(s.drop_first()) =~= Seq::<u8>::empty()) by {
        reveal_with_fuel(encode_utf8, 1);
    }
    assert(encode_utf8(s) =~= encode_scalar(c as u32)) by {
        reveal_with_fuel(encode_utf8, 2);
    }
    encode_utf8_valid_utf8(s);
    encode_utf8_decode_utf8(s);
}

/// The UTF-8 encoding of `c`: the first `n` bytes of the array, `n` from 1
/// to 4.
pub fn encode_char(c: char) -> (res: ([u8; 4], usize))
    ensures
        1 <= res.1 <= 4,
        res.0@.subrange(0, res.1 as int) == encode_scalar(c as u32),
{
    let code: u32 = c as u32;
    if code <= 0x7F {
        let out: [u8; 4] = [(code & 0x7F) as u8, 0, 0, 0];
        assert(out@.subrange(0, 1) =~= encode_scalar(code));
        (out, 1)
    } else if code <= 0x7FF {
        let out: [u8; 4] = [
            0xC0 | ((code >> 6) & 0x1F) as u8,
            0x80 | (code & 0x3F) as u8,
            0,
            0,
        ];
        assert(out@.subrange(0, 2) =~= encode_scalar(code));
        (out, 2)
    } else if code <= 0xFFFF {
        let out: [u8; 4] = [
            0xE0 | ((code >> 12) & 0x0F) as u8,
            0x80 | ((code >> 6) & 0x3F) as u8,
            0x80 | (code & 0x3F) as u8,
            0,
        ];
        assert(out@.subrange(0, 3) =~= encode_scalar(code));
        (out, 3)
    } else {
        let out: [u8; 4] = [
            0xF0 | ((code >> 18) & 0x7) as u8,
            0x80 | ((code >> 12) & 0x3F) as u8,
            0x80 | ((code >> 6) & 0x3F) as u8,
            0x80 | (code & 0x3F) as u8,
        ];
        assert(out@.subrange(0, 4) =~= encode_scalar(code));
        (out, 4)
    }
}

proof fn lemma_codepoint_ranges(b0: u8, b1: u8, b2: u8)
    by (bit_vector)
    ensures
        codepoint_width_1(b0) <= 0x7F,
        codepoint_width_2(b0, b1) <= 0x7FF,
        codepoint_width_3(b0, b1, b2) <= 0xFFFF,
{
}

/// In well-formed text a scalar starts at one of any four bytes in a row: of
/// the byte at `i` and the three before it, one is no continuation byte.
pub proof fn lemma_scalar_starts_within_four(text: Seq<u8>, i: int)
    requires
        valid_utf8(text),
        0 <= i < text.len(),
    ensures
        !is_continuation_byte(text[i]) || (i >= 1 && !is_continuation_byte(text[i - 1])) || (i >= 2
            && !is_continuation_byte(text[i - 2])) || (i >= 3 && !is_continuation_byte(
            text[i - 3],
        )),
    decreases text.len(),
{
    let n = length_of_first_scalar(text);
    if i >= n {
        let rest = pop_first_scalar(text);
        lemma_scalar_starts_within_four(rest, i - n);
        assert(rest[i - n] == text[i]);
        if i - n >= 1 {
            assert(rest[i - n - 1] == text[i - 1]);
        }
        if i - n >= 2 {
            assert(rest[i - n - 2] == text[i - 2]);
        }
        if i - n >= 3 {
            assert(rest[i - n - 3] == text[i - 3]);
        }
    }
}

/// Well-formed text that has continuation bytes everywhere but at its start
/// is one scalar.
pub proof fn lemma_single_scalar(text: Seq<u8>)
    requires
        valid_utf8(text),
        text.len() > 0,
        forall|k: int| 0 < k < text.len() ==> is_continuation_byte(#[trigger] text[k]),
    ensures
        length_of_first_scalar(text) == text.len(),
        is_scalar(decode_first_scalar(text)),
        encode_scalar(decode_first_scalar(text)) == text,
        decode_utf8(text) == seq![decode_first_scalar(text) as char],
{
    let n = length_of_first_scalar(text);
    let rest = pop_first_scalar(text);
    assert(valid_first_scalar(text));
    assert(valid_utf8(rest));
    if n < text.len() {
        assert(rest.len() == text.len() - n);
        assert(valid_first_scalar(rest));
        assert(rest[0] == text[n]);
        assert(is_continuation_byte(text[n]));
        assert(false);
    }
    assert(rest =~= Seq::<u8>::empty());
    lemma_codepoint_ranges(text[0], text[1], text[2]);
    decode_utf8_first_scalar(text);
    assert(take_first_scalar(text) =~= text);
    assert(decode_utf8(rest) =~= Seq::<char>::empty());
    assert(decode_utf8(text) =~= seq![decode_first_scalar(text) as char]);
}

/// The last character of the first `len` bytes of `buffer`, and the number of
/// bytes that encode it.
pub fn decode_last_char(buffer: &[u8], len: usize) -> (res: (char, usize))
    requires
        0 < len <= buffer@.len(),
        valid_utf8(buffer@.subrange(0, len as int)),
    ensures
        1 <= res.1 <= 4,
        res.1 <= len,
        res.1 == length_of_last_scalar(buffer@.subrange(0, len as int)),
        res.0 as u32 == decode_last_scalar(buffer@.subrange(0, len as int)),
        valid_utf8(buffer@.subrange(0, len - res.1)),
        buffer@.subrange(len - res.1, len as int) == encode_scalar(res.0 as u32),
        decode_utf8(buffer@.subrange(0, len as int)) == decode_utf8(
            buffer@.subrange(0, len - res.1),
        ).push(res.0),
{
    let ghost text = buffer@.subrange(0, len as int);
    proof {
        lemma_scalar_starts_within_four(text, len - 1);
    }
    let b1 = buffer[len - 1];
    assert(b1 == text[len - 1]);
    let mut n: usize = 1;
    let mut code: u32 = (b1 & 0x7F) as u32;
    if is_continuation(b1) {
        let b2 = buffer[len - 2];
        assert(b2 == text[len - 2]);
        if !is_continuation(b2) {
            n = 2;
            code = (((b2 & 0x1F) as u32) << 6) | ((b1 & 0x3F) as u32);
        } else {
            let b3 = buffer[len - 3];
            assert(b3 == text[len - 3]);
            if !is_continuation(b3) {
                n = 3;
                code = (((b3 & 0x0F) as u32) << 12) | (((b2 & 0x3F) as u32) << 6) | ((b1
                    & 0x3F) as u32);
            } else {
                let b4 = buffer[len - 4];
                assert(b4 == text[len - 4]);
                n = 4;
                code = (((b4 & 0x07) as u32) << 18) | (((b3 & 0x3F) as u32) << 12) | (((b2
                    & 0x3F) as u32) << 6) | ((b1 & 0x3F) as u32);
            }
        }
    }
    let ghost start = len - n;
    let ghost last = text.subrange(start, len as int);
    proof {
        assert(!is_continuation_byte(text[start]));
        is_char_boundary_iff_not_is_continuation_byte(text, start);
        valid_utf8_split(text, start);
        decode_utf8_split(text, start);
        assert forall|k: int| 0 < k < last.len() implies is_continuation_byte(
            #[trigger] last[k],
        ) by {
            assert(last[k] == text[start + k]);
        }
        lemma_single_scalar(last);
        assert(last[0] == text[start]);
        if n >= 2 {
            assert(last[1] == text[start + 1]);
        }
        if n >= 3 {
            assert(last[2] == text[start + 2]);
        }
        if n >= 4 {
            assert(last[3] == text[start + 3]);
        }
        assert(code == decode_first_scalar(last));
        assert(text.subrange(0, start) =~= buffer@.subrange(0, start));
        assert(last =~= buffer@.subrange(start, len as int));
    }
    match char::from_u32(code) {
        Some(c) => (c, n),
        None => {
            assert(false);
            ('\0', n)
        },
    }
}

} // verus!
