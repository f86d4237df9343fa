//! The fixed block that holds short text in the value itself.
//!
//! Text of up to [`MAX_INLINE_SIZE`] bytes is stored inline: it starts the
//! block, and the final byte holds the tag that gives its length. Text of
//! exactly [`MAX_SIZE`] bytes is packed: it fills the block, and its own last
//! byte, which is no control byte, says so.

use vstd::prelude::*;
use vstd::slice::*;
use vstd::utf8::*;

use crate::discriminant::{
    classification, classify, encode_inline_tag, inline_len, is_control_byte, Discriminant,
    HEAP_MASK, MAX_INLINE_SIZE, MAX_SIZE,
};

verus! {

/// Length of the text in a block whose final byte is `last`.
pub open spec fn text_len(last: u8) -> nat {
    match classification(last) {
        Discriminant::Inline(len) => len as nat,
        Discriminant::Packed => MAX_SIZE as nat,
        Discriminant::Heap => 0,
    }
}

/// A block of [`MAX_SIZE`] bytes with text in it.
#[derive(Clone, Copy, Debug)]
pub struct Block {
    /// The bytes of the block: text, then filler, then the tag; or text alone.
    pub data: [u8; MAX_SIZE],
}

impl Block {
    /// All bytes of the block.
    pub open spec fn buffer(&self) -> Seq<u8> {
        self.data@
    }

    /// The final byte, which tells the encodings apart.
    pub open spec fn last(&self) -> u8 {
        self.data@[MAX_SIZE - 1]
    }

    /// Length of the text in bytes.
    pub open spec fn spec_len(&self) -> nat {
        text_len(self.last())
    }

    /// The text.
    pub open spec fn bytes(&self) -> Seq<u8> {
        self.buffer().subrange(0, self.spec_len() as int)
    }

    /// The final byte is a text byte or the tag of a length that fits, and
    /// the text is UTF-8.
    pub open spec fn wf(&self) -> bool {
        &&& self.last() != HEAP_MASK
        &&& (is_control_byte(self.last()) ==> inline_len(self.last()) <= MAX_INLINE_SIZE)
        &&& valid_utf8(self.bytes())
    }

    /// The empty text.
    pub fn empty() -> (res: Self)
        ensures
            res.wf(),
            res.bytes() == Seq::<u8>::empty(),
    {
        let mut data: [u8; MAX_SIZE] = [0u8; MAX_SIZE];
        data[MAX_SIZE - 1] = encode_inline_tag(0);
        let res = Block { data };
        assert(res.bytes() =~= Seq::<u8>::empty());
        res
    }

    /// A block that holds a copy of `text`.
    pub fn new(text: &[u8]) -> (res: Self)
        requires
            text@.len() <= MAX_SIZE,
            valid_utf8(text@),
        ensures
            res.wf(),
            res.bytes() == text@,
    {
        let mut res = Block { data: [0u8; MAX_SIZE] };
        let len = text.len();
        let mut i: usize = 0;
        while i < len
            invariant
                i <= len,
                len == text@.len(),
                len <= MAX_SIZE,
                res.buffer().subrange(0, i as int) == text@.subrange(0, i as int),
            decreases len - i,
        {
            let ghost before = res.buffer();
            res.data[i] = text[i];
            assert(res.buffer().subrange(0, i + 1) =~= before.subrange(0, i as int).push(text@[i as int]));
            assert(text@.subrange(0, i + 1) =~= text@.subrange(0, i as int).push(text@[i as int]));
            i = i + 1;
        }
        assert(text@.subrange(0, len as int) =~= text@);
        res.set_len(len);
        res
    }

    /// Length of the text in bytes.
    pub fn len(&self) -> (len: usize)
        requires
            self.wf(),
        ensures
            len == self.spec_len(),
            len <= MAX_SIZE,
    {
        match classify(self.data[MAX_SIZE - 1]) {
            Discriminant::Inline(len) => len,
            Discriminant::Packed => MAX_SIZE,
            Discriminant::Heap => 0,
        }
    }

    /// The final byte of the block.
    pub fn last_byte(&self) -> (byte: u8)
        ensures
            byte == self.last(),
    {
        self.data[MAX_SIZE - 1]
    }

    /// The text.
    pub fn as_bytes(&self) -> (bytes: &[u8])
        requires
            self.wf(),
        ensures
            bytes@ == self.bytes(),
    {
        let len = self.len();
        slice_subrange(self.data.as_slice(), 0, len)
    }

    /// The whole block for writing, the final byte included. What is written
    /// becomes text with [`set_len`](Block::set_len).
    pub fn as_mut_bytes(&mut self) -> (view: &mut [u8])
        ensures
            view@ == old(self).buffer(),
            final(self).buffer() == final(view)@,
    {
        let view: &mut [u8] = &mut self.data;
        view
    }

    /// Makes the first `len` bytes of the block the text. A length below
    /// [`MAX_SIZE`] is written to the final byte as a tag; text of
    /// [`MAX_SIZE`] bytes needs none.
    pub fn set_len(&mut self, len: usize)
        requires
            len <= MAX_SIZE,
            valid_utf8(old(self).buffer().subrange(0, len as int)),
        ensures
            final(self).wf(),
            final(self).spec_len() == len,
            final(self).bytes() == old(self).buffer().subrange(0, len as int),
    {
        if len < MAX_SIZE {
            self.data[MAX_SIZE - 1] = encode_inline_tag(len);
            assert(self.bytes() =~= old(self).buffer().subrange(0, len as int));
        } else {
            proof {
                let text = old(self).buffer().subrange(0, len as int);
                assert(text =~= old(self).buffer());
                valid_utf8_last(text);
                assert(text.last() == self.last());
            }
        }
    }

    /// Appends `extra` to the text, which must still fit.
    pub fn append(&mut self, extra: &[u8])
        requires
            old(self).wf(),
            valid_utf8(extra@),
            old(self).spec_len() + extra@.len() <= MAX_SIZE,
        ensures
            final(self).wf(),
            final(self).bytes() == old(self).bytes() + extra@,
    {
        let len = self.len();
        let added = extra.len();
        let mut i: usize = 0;
        while i < added
            invariant
                i <= added,
                added == extra@.len(),
                len + added <= MAX_SIZE,
                self.buffer().subrange(0, len as int) == old(self).bytes(),
                self.buffer().subrange(len as int, len + i) == extra@.subrange(0, i as int),
            decreases added - i,
        {
            let ghost before = self.buffer();
            self.data[len + i] = extra[i];
            assert(self.buffer().subrange(0, len as int) =~= before.subrange(0, len as int));
            assert(self.buffer().subrange(len as int, len + i + 1) =~= before.subrange(
                len as int,
                len + i,
            ).push(extra@[i as int]));
            assert(extra@.subrange(0, i + 1) =~= extra@.subrange(0, i as int).push(
                extra@[i as int],
            ));
            i = i + 1;
        }
        proof {
            assert(extra@.subrange(0, added as int) =~= extra@);
            assert(self.buffer().subrange(0, len + added) =~= old(self).bytes() + extra@);
            valid_utf8_concat(old(self).bytes(), extra@);
        }
        self.set_len(len + added);
    }
}

} // verus!
