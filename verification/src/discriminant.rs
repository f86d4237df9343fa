//! The tag scheme of the fixed block.
//!
//! A value is a block of [`MAX_SIZE`] bytes, and its final byte tells the three
//! encodings apart. Well-formed UTF-8 never ends in a byte above `0xBF`, so the
//! bytes from `0xC0` up are free to carry control values in that position: the
//! inline tags `0xC0 + len`, and the heap sentinel `0xFF`.

use vstd::prelude::*;

verus! {

/// Size in bytes of the fixed block: three machine words of eight bytes.
pub const MAX_SIZE: usize = 24;

/// Longest text that leaves the final byte of the block free for a tag.
pub const MAX_INLINE_SIZE: usize = MAX_SIZE - 1;

/// Sentinel that marks a block whose text lives in a shared heap buffer.
pub const HEAP_MASK: u8 = 0xFF;

/// Lowest control value; an inline tag is this plus the length of the text.
pub const INLINE_MASK: u8 = 0xC0;

/// Largest byte that can end well-formed UTF-8 text.
pub const MAX_TEXT_BYTE: u8 = 0xBF;

/// The three encodings of a block.
#[derive(Clone, Copy, Debug, PartialEq, Eq, Structural)]
pub enum Discriminant {
    /// The text occupies the first `len` bytes, the final byte holds the tag.
    Inline(usize),
    /// The text occupies the whole block.
    Packed,
    /// The block holds the sentinel and a handle to a shared buffer.
    Heap,
}

/// Whether `byte` is reserved for control values in the final position.
pub open spec fn is_control_byte(byte: u8) -> bool {
    byte >= INLINE_MASK
}

/// The tag of inline text of `len` bytes.
pub open spec fn inline_tag(len: int) -> u8
    recommends
        0 <= len <= MAX_INLINE_SIZE,
{
    (INLINE_MASK + len) as u8
}

/// The length that an inline tag stands for.
pub open spec fn inline_len(tag: u8) -> int
    recommends
        is_control_byte(tag),
{
    tag - INLINE_MASK
}

/// The encoding that the final byte of a block selects: the sentinel first,
/// then the control range, then text.
pub open spec fn classification(last: u8) -> Discriminant {
    if last == HEAP_MASK {
        Discriminant::Heap
    } else if is_control_byte(last) {
        Discriminant::Inline(inline_len(last) as usize)
    } else {
        Discriminant::Packed
    }
}

/// The tag for inline text of `len` bytes.
pub fn encode_inline_tag(len: usize) -> (tag: u8)
    requires
        len <= MAX_INLINE_SIZE,
    ensures
        tag == inline_tag(len as int),
        is_control_byte(tag),
        tag != HEAP_MASK,
        inline_len(tag) == len,
{
    INLINE_MASK + (len as u8)
}

/// The length of the inline text whose tag is `tag`.
pub fn decode_inline_tag(tag: u8) -> (len: usize)
    requires
        is_control_byte(tag),
    ensures
        len == inline_len(tag),
        len <= MAX_INLINE_SIZE ==> inline_tag(len as int) == tag,
{
    (tag - INLINE_MASK) as usize
}

/// Classifies a block by its final byte.
pub fn classify(last: u8) -> (d: Discriminant)
    ensures
        d == classification(last),
{
    if last == HEAP_MASK {
        Discriminant::Heap
    } else if last >= INLINE_MASK {
        Discriminant::Inline(decode_inline_tag(last))
    } else {
        Discriminant::Packed
    }
}

/// Encoding a length and decoding the tag gives the length back, and the tag
/// classifies as inline text of that length.
pub proof fn lemma_inline_tag_round_trip(len: int)
    requires
        0 <= len <= MAX_INLINE_SIZE,
    ensures
        is_control_byte(inline_tag(len)),
        inline_tag(len) != HEAP_MASK,
        inline_len(inline_tag(len)) == len,
        classification(inline_tag(len)) == Discriminant::Inline(len as usize),
{
}

/// Two lengths with the same tag are the same length.
pub proof fn lemma_inline_tag_injective(a: int, b: int)
    requires
        0 <= a <= MAX_INLINE_SIZE,
        0 <= b <= MAX_INLINE_SIZE,
        inline_tag(a) == inline_tag(b),
    ensures
        a == b,
{
}

/// A byte that can end text classifies as packed; no text byte is mistaken
/// for a tag or for the sentinel.
pub proof fn lemma_text_byte_is_packed(last: u8)
    requires
        last <= MAX_TEXT_BYTE,
    ensures
        classification(last) == Discriminant::Packed,
{
}

/// Exactly one of the three encodings is selected, whatever the byte.
pub proof fn lemma_classification_exclusive(last: u8)
    ensures
        classification(last) is Heap <==> last == HEAP_MASK,
        classification(last) is Inline <==> (is_control_byte(last) && last != HEAP_MASK),
        classification(last) is Packed <==> last <= MAX_TEXT_BYTE,
{
}

} // verus!
