//! The compact string itself: construction, reading, and the operations that
//! grow and shrink the text.

use std::collections::VecDeque;
use vstd::prelude::*;
use vstd::slice::*;
use vstd::string::*;
use vstd::utf8::*;

use crate::block::Block;
use crate::discriminant::{classification, classify, Discriminant, HEAP_MASK, MAX_SIZE};
use crate::heap::{extend_bytes, HeapString};
use crate::model::{
    from_utf8_model, lemma_append_append, lemma_append_wf, lemma_push_chars, Model,
};
use crate::scalar::{
    decode_last_char, encode_char, lemma_encode_scalar_is_text, lemma_encode_utf8_concat,
};
use crate::utf8::{valid_up_to, validate, validate_prefix, Utf8Error};

verus! {

/// Why room could not be reserved.
#[derive(Clone, Copy, Debug, PartialEq, Eq)]
pub enum ReserveError {
    /// The length asked for is more than a buffer can have: more than
    /// `isize::MAX` bytes.
    CapacityOverflow,
}

/// The characters of all `pieces`, one piece after the other.
pub open spec fn concat(pieces: Seq<&str>) -> Seq<char>
    decreases pieces.len(),
{
    if pieces.len() == 0 {
        Seq::empty()
    } else {
        concat(pieces.drop_last()) + pieces.last()@
    }
}

/// The bytes of `queue`, in order and in one piece.
pub fn contiguous(queue: &VecDeque<u8>) -> (bytes: Vec<u8>)
    ensures
        bytes@ == queue@,
{
    let mut bytes: Vec<u8> = Vec::new();
    let n = queue.len();
    let mut i: usize = 0;
    while i < n
        invariant
            i <= n,
            n == queue@.len(),
            bytes@ == queue@.subrange(0, i as int),
        decreases n - i,
    {
        bytes.push(queue[i]);
        assert(queue@.subrange(0, i + 1) =~= queue@.subrange(0, i as int).push(queue@[i as int]));
        i = i + 1;
    }
    assert(queue@.subrange(0, n as int) =~= queue@);
    bytes
}

/// Where the text lives: in the block, or behind a heap handle that fills the
/// block with its padding.
#[derive(Debug)]
enum Repr {
    Block(Block),
    Heap(HeapString),
}

/// A growable UTF-8 string that keeps text of up to [`MAX_SIZE`] bytes in the
/// value itself and longer text in a shared heap buffer.
#[derive(Debug)]
pub struct CompactString {
    repr: Repr,
}

impl View for CompactString {
    type V = Seq<char>;

    /// The characters of the text.
    open spec fn view(&self) -> Seq<char> {
        decode_utf8(self.bytes())
    }
}

impl CompactString {
    /// Whether the text lives in a heap buffer.
    pub closed spec fn is_heap(&self) -> bool {
        self.repr is Heap
    }

    /// Everything that can be written to in place: the block, or the heap
    /// buffer.
    pub closed spec fn buffer(&self) -> Seq<u8> {
        match self.repr {
            Repr::Block(block) => block.buffer(),
            Repr::Heap(heap) => heap.buffer(),
        }
    }

    /// Length of the text in bytes.
    pub closed spec fn spec_len(&self) -> nat {
        match self.repr {
            Repr::Block(block) => block.spec_len(),
            Repr::Heap(heap) => heap.spec_len(),
        }
    }

    /// The final byte of the block.
    pub closed spec fn last(&self) -> u8 {
        match self.repr {
            Repr::Block(block) => block.last(),
            Repr::Heap(heap) => HEAP_MASK,
        }
    }

    /// The text, as UTF-8.
    pub open spec fn bytes(&self) -> Seq<u8> {
        self.buffer().subrange(0, self.spec_len() as int)
    }

    /// The value is in order but for its text, which may be any bytes: the
    /// state between a write through
    /// [`as_mut_bytes`](CompactString::as_mut_bytes) and
    /// [`set_len`](CompactString::set_len).
    pub closed spec fn raw(&self) -> bool {
        match self.repr {
            Repr::Block(block) => true,
            Repr::Heap(heap) => heap.raw(),
        }
    }

    /// The value is in order: its final byte selects the encoding that it is
    /// in, and its text is UTF-8.
    pub closed spec fn wf(&self) -> bool {
        match self.repr {
            Repr::Block(block) => block.wf(),
            Repr::Heap(heap) => heap.wf(),
        }
    }

    /// The abstract value.
    pub open spec fn model(&self) -> Model {
        Model { bytes: self.bytes(), heap: self.is_heap(), capacity: self.buffer().len() }
    }

    /// What being in order means for the abstract value, and for the final
    /// byte: it never selects another encoding than the one the value is in.
    pub proof fn lemma_wf(&self)
        requires
            self.wf(),
        ensures
            self.raw(),
            self.model().wf(),
            self.spec_len() <= self.buffer().len(),
            self.bytes().len() == self.spec_len(),
            self.bytes() == encode_utf8(self@),
            classification(self.last()) is Heap <==> self.is_heap(),
            classification(self.last()) matches Discriminant::Inline(len) ==> !self.is_heap()
                && self.bytes().len() == len && len < MAX_SIZE,
            classification(self.last()) is Packed ==> !self.is_heap() && self.bytes().len()
                == MAX_SIZE,
    {
        decode_utf8_encode_utf8(self.bytes());
    }

    fn from_text(bytes: &[u8]) -> (res: Self)
        requires
            valid_utf8(bytes@),
        ensures
            res.wf(),
            res.model() == Model::text(bytes@),
    {
        if bytes.len() <= MAX_SIZE {
            CompactString { repr: Repr::Block(Block::new(bytes)) }
        } else {
            let buffer = slice_to_vec(bytes);
            let len = buffer.len();
            assert(buffer@.subrange(0, len as int) =~= bytes@);
            CompactString { repr: Repr::Heap(HeapString::from_buffer(buffer, len)) }
        }
    }

    /// A value that holds a copy of `text`: in the block where the text has at
    /// most [`MAX_SIZE`] bytes, on the heap where it has more.
    pub fn new(text: &str) -> (res: Self)
        ensures
            res.wf(),
            res.model() == Model::text(encode_utf8(text@)),
            res@ == text@,
    {
        proof {
            encode_utf8_valid_utf8(text@);
            encode_utf8_decode_utf8(text@);
        }
        let bytes = text.as_bytes();
        if bytes.len() <= MAX_SIZE {
            CompactString { repr: Repr::Block(Block::new(bytes)) }
        } else {
            let heap = HeapString::new(text);
            assert(heap.bytes() =~= heap.buffer());
            CompactString { repr: Repr::Heap(heap) }
        }
    }

    /// A value that holds a copy of `text` in the block. The text must fit.
    pub fn new_inline(text: &str) -> (res: Self)
        requires
            encode_utf8(text@).len() <= MAX_SIZE,
        ensures
            res.wf(),
            !res.is_heap(),
            res.model() == Model::text(encode_utf8(text@)),
            res@ == text@,
    {
        proof {
            encode_utf8_valid_utf8(text@);
            encode_utf8_decode_utf8(text@);
        }
        CompactString { repr: Repr::Block(Block::new(text.as_bytes())) }
    }

    /// A value built from untrusted bytes: the value of that text where the
    /// bytes are UTF-8, the error of the validation where they are not.
    pub fn from_utf8(bytes: &[u8]) -> (res: Result<Self, Utf8Error>)
        ensures
            res is Ok <==> valid_utf8(bytes@),
            match res {
                Ok(s) => s.wf() && from_utf8_model(bytes@) == Ok::<Model, Utf8Error>(s.model()),
                Err(e) => from_utf8_model(bytes@) == Err::<Model, Utf8Error>(e) && e.valid_up_to
                    == valid_up_to(bytes@),
            },
    {
        match validate(bytes) {
            Ok(_) => Ok(CompactString::from_text(bytes)),
            Err(e) => Err(e),
        }
    }

    /// A value built from untrusted bytes that need not lie in one piece of
    /// memory. The result is that of [`from_utf8`](CompactString::from_utf8)
    /// on the same bytes in one piece.
    pub fn from_utf8_buf(source: &VecDeque<u8>) -> (res: Result<Self, Utf8Error>)
        ensures
            res is Ok <==> valid_utf8(source@),
            match res {
                Ok(s) => s.wf() && from_utf8_model(source@) == Ok::<Model, Utf8Error>(s.model()),
                Err(e) => from_utf8_model(source@) == Err::<Model, Utf8Error>(e) && e.valid_up_to
                    == valid_up_to(source@),
            },
    {
        let len = source.len();
        let mut res = CompactString::default();
        if res.reserve(len).is_err() {
            let bytes = contiguous(source);
            return CompactString::from_utf8(bytes.as_slice());
        }
        let ghost room = res.buffer().len();
        let view = res.as_mut_bytes();
        let mut i: usize = 0;
        while i < len
            invariant
                i <= len,
                len == source@.len(),
                view@.len() == room,
                len <= room,
                view@.subrange(0, i as int) == source@.subrange(0, i as int),
            decreases len - i,
        {
            let ghost before = view@;
            view[i] = source[i];
            assert(view@.subrange(0, i + 1) =~= before.subrange(0, i as int).push(
                source@[i as int],
            ));
            assert(source@.subrange(0, i + 1) =~= source@.subrange(0, i as int).push(
                source@[i as int],
            ));
            i = i + 1;
        }
        assert(source@.subrange(0, len as int) =~= source@);
        match validate_prefix(view, len) {
            Ok(_) => {
                res.set_len(len);
                Ok(res)
            },
            Err(e) => Err(e),
        }
    }

    /// A value that takes over the buffer of `s`, where `capacity` is the
    /// capacity of `s`. A string without an allocation gives the empty value
    /// in the block; any other gives a value on the heap, without copying.
    pub fn adopt_string(s: String, capacity: usize) -> (res: Self)
        requires
            capacity >= encode_utf8(s@).len(),
        ensures
            res.wf(),
            res.model() == Model::adopted(encode_utf8(s@), capacity != 0),
            res@ == s@,
    {
        proof {
            encode_utf8_decode_utf8(s@);
        }
        if capacity == 0 {
            assert(encode_utf8(s@) =~= Seq::<u8>::empty());
            CompactString::default()
        } else {
            let heap = HeapString::from_string(s);
            assert(heap.bytes() =~= heap.buffer());
            CompactString { repr: Repr::Heap(heap) }
        }
    }

    /// A value that takes over the buffer of `s`. It is on the heap unless `s`
    /// had no allocation, which only an empty string can be without.
    pub fn from_string(s: String) -> (res: Self)
        ensures
            res.wf(),
            res.model() == Model::adopted(encode_utf8(s@), res.is_heap()),
            res.bytes() == encode_utf8(s@),
            res@ == s@,
            s@.len() > 0 ==> res.is_heap(),
    {
        let capacity = s.capacity();
        proof {
            if s@.len() > 0 {
                encode_utf8_first_scalar(s@);
            }
        }
        CompactString::adopt_string(s, capacity)
    }

    /// A value that takes over the allocation of `text`. It is on the heap
    /// unless `text` is empty, for empty boxed text has no allocation.
    pub fn from_box_str(text: Box<str>) -> (res: Self)
        ensures
            res.wf(),
            res.model() == Model::adopted(encode_utf8(text@), encode_utf8(text@).len() != 0),
            res@ == text@,
    {
        proof {
            encode_utf8_valid_utf8(text@);
            encode_utf8_decode_utf8(text@);
        }
        if text.as_bytes().len() == 0 {
            assert(encode_utf8(text@) =~= Seq::<u8>::empty());
            CompactString::default()
        } else {
            let buffer = text.into_boxed_bytes().into_vec();
            let len = buffer.len();
            assert(buffer@.subrange(0, len as int) =~= buffer@);
            CompactString { repr: Repr::Heap(HeapString::from_buffer(buffer, len)) }
        }
    }

    /// A value built by appending the characters of `chars` to the empty
    /// value.
    pub fn from_chars(chars: &[char]) -> (res: Self)
        ensures
            res.wf(),
            res.model() == Model::text(encode_utf8(chars@)),
            res@ == chars@,
    {
        let mut res = CompactString::default();
        res.extend_chars(chars);
        proof {
            assert(Seq::<u8>::empty() + encode_utf8(chars@) =~= encode_utf8(chars@));
            assert(Seq::<char>::empty() + chars@ =~= chars@);
        }
        res
    }

    /// A value built by appending the pieces of `pieces` to the empty value.
    pub fn from_strs(pieces: &[&str]) -> (res: Self)
        ensures
            res.wf(),
            res.model() == Model::text(encode_utf8(concat(pieces@))),
            res@ == concat(pieces@),
    {
        let mut res = CompactString::default();
        res.extend_strs(pieces);
        proof {
            assert(Seq::<u8>::empty() + encode_utf8(concat(pieces@)) =~= encode_utf8(
                concat(pieces@),
            ));
            assert(Seq::<char>::empty() + concat(pieces@) =~= concat(pieces@));
        }
        res
    }

    /// The final byte of the block: the tag, the last byte of packed text, or
    /// the sentinel.
    pub fn last_byte(&self) -> (byte: u8)
        requires
            self.wf(),
        ensures
            byte == self.last(),
    {
        match &self.repr {
            Repr::Block(block) => block.last_byte(),
            Repr::Heap(heap) => heap.last_byte(),
        }
    }

    /// The encoding that the value is in, read from the final byte of the
    /// block alone.
    pub fn discriminant(&self) -> (d: Discriminant)
        requires
            self.wf(),
        ensures
            d == classification(self.last()),
            d is Heap <==> self.is_heap(),
            d matches Discriminant::Inline(len) ==> self.bytes().len() == len && len < MAX_SIZE,
            d is Packed ==> self.bytes().len() == MAX_SIZE,
    {
        classify(self.last_byte())
    }

    /// Whether the text lives in a heap buffer.
    pub fn is_heap_allocated(&self) -> (heap: bool)
        requires
            self.wf(),
        ensures
            heap == self.is_heap(),
    {
        match self.discriminant() {
            Discriminant::Heap => true,
            _ => false,
        }
    }

    /// Length of the text in bytes.
    pub fn len(&self) -> (len: usize)
        requires
            self.wf(),
        ensures
            len == self.spec_len(),
            len == self.bytes().len(),
    {
        match &self.repr {
            Repr::Block(block) => block.len(),
            Repr::Heap(heap) => heap.len(),
        }
    }

    /// Whether the text is empty.
    pub fn is_empty(&self) -> (empty: bool)
        requires
            self.wf(),
        ensures
            empty == (self.bytes().len() == 0),
            empty == (self@.len() == 0),
    {
        proof {
            if self.bytes().len() > 0 {
                assert(self@.len() > 0);
            }
        }
        self.len() == 0
    }

    /// Number of bytes that the text can reach without a new buffer.
    pub fn capacity(&self) -> (capacity: usize)
        requires
            self.wf(),
        ensures
            capacity == self.model().capacity,
    {
        match &self.repr {
            Repr::Block(_) => MAX_SIZE,
            Repr::Heap(heap) => heap.capacity(),
        }
    }

    /// The text as bytes: exactly [`len`](CompactString::len) of them, and no
    /// filler.
    pub fn as_bytes(&self) -> (bytes: &[u8])
        requires
            self.wf(),
        ensures
            bytes@ == self.bytes(),
    {
        match &self.repr {
            Repr::Block(block) => block.as_bytes(),
            Repr::Heap(heap) => heap.as_bytes(),
        }
    }

    /// The text as a string slice.
    pub fn as_str(&self) -> (text: &str)
        requires
            self.wf(),
        ensures
            text@ == self@,
            encode_utf8(text@) == self.bytes(),
    {
        match core::str::from_utf8(self.as_bytes()) {
            Ok(text) => {
                proof {
                    encode_utf8_decode_utf8(text@);
                }
                text
            },
            Err(_) => {
                assert(false);
                ""
            },
        }
    }

    fn append_bytes(&mut self, extra: &[u8])
        requires
            old(self).wf(),
            valid_utf8(extra@),
        ensures
            final(self).wf(),
            final(self).model() == old(self).model().append(extra@),
            final(self)@ == old(self)@ + decode_utf8(extra@),
    {
        proof {
            lemma_append_wf(self.model(), extra@);
        }
        let inline: Option<Block> = match &self.repr {
            Repr::Block(block) => Some(*block),
            Repr::Heap(_) => None,
        };
        match inline {
            None => {
                match &mut self.repr {
                    Repr::Heap(heap) => {
                        heap.append(extra);
                    },
                    Repr::Block(_) => {
                        assert(false);
                    },
                }
            },
            Some(block) => {
                let mut block = block;
                let len = block.len();
                if extra.len() <= MAX_SIZE - len {
                    block.append(extra);
                    self.repr = Repr::Block(block);
                } else {
                    let mut buffer = slice_to_vec(block.as_bytes());
                    extend_bytes(&mut buffer, extra);
                    let total = buffer.len();
                    assert(buffer@.subrange(0, total as int) =~= buffer@);
                    proof {
                        valid_utf8_concat(block.bytes(), extra@);
                    }
                    self.repr = Repr::Heap(HeapString::from_buffer(buffer, total));
                }
            },
        }
    }

    /// Appends the character `ch`. The value moves to the heap when the text
    /// outgrows the block.
    pub fn push(&mut self, ch: char)
        requires
            old(self).wf(),
        ensures
            final(self).wf(),
            final(self).model() == old(self).model().push(ch),
            final(self)@ == old(self)@.push(ch),
    {
        let (encoded, n) = encode_char(ch);
        proof {
            lemma_encode_scalar_is_text(ch);
            lemma_push_chars(self.model(), ch);
        }
        self.append_bytes(slice_subrange(encoded.as_slice(), 0, n));
    }

    /// Appends `text` in one step.
    pub fn push_str(&mut self, text: &str)
        requires
            old(self).wf(),
        ensures
            final(self).wf(),
            final(self).model() == old(self).model().append(encode_utf8(text@)),
            final(self)@ == old(self)@ + text@,
    {
        proof {
            encode_utf8_valid_utf8(text@);
            encode_utf8_decode_utf8(text@);
        }
        self.append_bytes(text.as_bytes());
    }

    /// Removes the last character and returns it; `None`, and nothing
    /// changed, where the text is empty. A value on the heap stays there.
    pub fn pop(&mut self) -> (res: Option<char>)
        requires
            old(self).wf(),
        ensures
            final(self).wf(),
            final(self).model() == old(self).model().pop(),
            res == old(self).model().popped(),
            old(self)@.len() == 0 ==> res is None && final(self)@ == old(self)@,
            old(self)@.len() > 0 ==> res == Some(old(self)@.last()) && final(self)@ == old(
                self,
            )@.drop_last(),
    {
        let len = self.len();
        if len == 0 {
            return None;
        }
        proof {
            self.lemma_wf();
            assert(self.bytes().subrange(0, len as int) =~= self.bytes());
        }
        let (ch, n) = decode_last_char(self.as_bytes(), len);
        proof {
            let text = self.bytes();
            assert(text.subrange(0, len - n) =~= self.buffer().subrange(0, len - n));
            char_u32_cast(ch, ch as u32);
            assert(decode_utf8(text.subrange(0, len - n)).push(ch).drop_last() =~= decode_utf8(
                text.subrange(0, len - n),
            ));
        }
        self.set_len(len - n);
        Some(ch)
    }

    /// Cuts the text to its first `new_len` bytes, which must end on the
    /// boundary of a character; a text that is no longer than that stays as
    /// it is. A value on the heap stays there.
    pub fn truncate(&mut self, new_len: usize)
        requires
            old(self).wf(),
            new_len < old(self).bytes().len() ==> is_char_boundary(
                old(self).bytes(),
                new_len as int,
            ),
        ensures
            final(self).wf(),
            final(self).model() == old(self).model().truncate(new_len as nat),
    {
        proof {
            self.lemma_wf();
        }
        if new_len < self.len() {
            proof {
                valid_utf8_split(self.bytes(), new_len as int);
                assert(self.bytes().subrange(0, new_len as int) =~= self.buffer().subrange(
                    0,
                    new_len as int,
                ));
            }
            self.set_len(new_len);
        }
    }

    /// Appends the characters of `chars`, one after the other. Without
    /// characters nothing changes.
    pub fn extend_chars(&mut self, chars: &[char])
        requires
            old(self).wf(),
        ensures
            final(self).wf(),
            final(self).model() == old(self).model().append(encode_utf8(chars@)),
            final(self)@ == old(self)@ + chars@,
            chars@.len() == 0 ==> final(self).model() == old(self).model(),
    {
        let n = chars.len();
        let mut i: usize = 0;
        proof {
            self.lemma_wf();
            crate::model::law_empty_extend(self.model());
            assert(chars@.subrange(0, 0) =~= Seq::<char>::empty());
            assert(self@ + Seq::<char>::empty() =~= self@);
        }
        while i < n
            invariant
                i <= n,
                n == chars@.len(),
                self.wf(),
                self.model() == old(self).model().append(
                    encode_utf8(chars@.subrange(0, i as int)),
                ),
                self@ == old(self)@ + chars@.subrange(0, i as int),
            decreases n - i,
        {
            let ghost done = chars@.subrange(0, i as int);
            let ch = chars[i];
            self.push(ch);
            proof {
                assert(chars@.subrange(0, i + 1) =~= done + seq![ch]);
                lemma_encode_utf8_concat(done, seq![ch]);
                lemma_encode_scalar_is_text(ch);
                lemma_append_append(
                    old(self).model(),
                    encode_utf8(done),
                    encode_scalar(ch as u32),
                );
                assert((old(self)@ + done).push(ch) =~= old(self)@ + (done + seq![ch]));
            }
            i = i + 1;
        }
        assert(chars@.subrange(0, n as int) =~= chars@);
    }

    /// Appends the pieces of `pieces`, one after the other. Without pieces,
    /// or with empty pieces alone, nothing changes.
    pub fn extend_strs(&mut self, pieces: &[&str])
        requires
            old(self).wf(),
        ensures
            final(self).wf(),
            final(self).model() == old(self).model().append(encode_utf8(concat(pieces@))),
            final(self)@ == old(self)@ + concat(pieces@),
            concat(pieces@).len() == 0 ==> final(self).model() == old(self).model(),
    {
        let n = pieces.len();
        let mut i: usize = 0;
        proof {
            self.lemma_wf();
            crate::model::law_empty_extend(self.model());
            assert(pieces@.subrange(0, 0) =~= Seq::<&str>::empty());
            assert(self@ + Seq::<char>::empty() =~= self@);
        }
        while i < n
            invariant
                i <= n,
                n == pieces@.len(),
                self.wf(),
                self.model() == old(self).model().append(
                    encode_utf8(concat(pieces@.subrange(0, i as int))),
                ),
                self@ == old(self)@ + concat(pieces@.subrange(0, i as int)),
            decreases n - i,
        {
            let ghost done = pieces@.subrange(0, i as int);
            let piece = pieces[i];
            self.push_str(piece);
            proof {
                let next = pieces@.subrange(0, i + 1);
                assert(next.drop_last() =~= done);
                assert(next.last() == piece);
                lemma_encode_utf8_concat(concat(done), piece@);
                lemma_append_append(
                    old(self).model(),
                    encode_utf8(concat(done)),
                    encode_utf8(piece@),
                );
                assert((old(self)@ + concat(done)) + piece@ =~= old(self)@ + (concat(done)
                    + piece@));
            }
            i = i + 1;
        }
        assert(pieces@.subrange(0, n as int) =~= pieces@);
    }

    /// Makes room for `additional` more bytes, so that the text can grow by
    /// that much in place. The text stays as it is; the value moves to the
    /// heap where the block cannot hold that much. Where the length asked for
    /// is more than `isize::MAX`, the most that a buffer can have, nothing is
    /// done and the error says so.
    pub fn reserve(&mut self, additional: usize) -> (res: Result<(), ReserveError>)
        requires
            old(self).wf(),
        ensures
            final(self).wf(),
            res is Err <==> old(self).bytes().len() + additional > isize::MAX,
            res is Ok ==> final(self).model() == old(self).model().reserve(additional as nat),
            res is Err ==> final(self).model() == old(self).model(),
            final(self)@ == old(self)@,
    {
        let len = self.len();
        let needed = match len.checked_add(additional) {
            Some(needed) => needed,
            None => {
                return Err(ReserveError::CapacityOverflow);
            },
        };
        if needed > isize::MAX as usize {
            return Err(ReserveError::CapacityOverflow);
        }
        let inline: Option<Block> = match &self.repr {
            Repr::Block(block) => Some(*block),
            Repr::Heap(_) => None,
        };
        match inline {
            None => {
                match &mut self.repr {
                    Repr::Heap(heap) => {
                        heap.reserve_to(needed);
                    },
                    Repr::Block(_) => {
                        assert(false);
                    },
                }
            },
            Some(block) => {
                if needed > MAX_SIZE {
                    let mut buffer = slice_to_vec(block.as_bytes());
                    buffer.resize(needed, 0u8);
                    self.repr = Repr::Heap(HeapString::from_buffer(buffer, len));
                }
            },
        }
        Ok(())
    }

    /// Everything that can be written to in place, for writing: the whole
    /// block, or the whole heap buffer, which is copied first where another
    /// value shares it. The text is the start of the view. What is written
    /// becomes text with [`set_len`](CompactString::set_len); until then the
    /// value is [`raw`](CompactString::raw).
    pub fn as_mut_bytes(&mut self) -> (view: &mut [u8])
        requires
            old(self).wf(),
        ensures
            view@ == old(self).buffer(),
            final(self).buffer() == final(view)@,
            final(self).is_heap() == old(self).is_heap(),
            final(self).raw(),
    {
        match &mut self.repr {
            Repr::Block(block) => block.as_mut_bytes(),
            Repr::Heap(heap) => heap.as_mut_bytes(),
        }
    }

    /// Makes the first `len` bytes of the buffer the text. They must have been
    /// written, and be UTF-8.
    pub fn set_len(&mut self, len: usize)
        requires
            old(self).raw(),
            len <= old(self).buffer().len(),
            valid_utf8(old(self).buffer().subrange(0, len as int)),
        ensures
            final(self).wf(),
            final(self).model() == old(self).model().set_len(old(self).buffer(), len as nat),
            final(self).bytes().len() == len,
    {
        match &mut self.repr {
            Repr::Block(block) => {
                block.set_len(len);
            },
            Repr::Heap(heap) => {
                heap.set_len(len);
            },
        }
    }
}

impl Default for CompactString {
    /// The empty value, in the block.
    fn default() -> (res: Self)
        ensures
            res.wf(),
            res.model() == Model::text(Seq::empty()),
            res@ == Seq::<char>::empty(),
    {
        CompactString { repr: Repr::Block(Block::empty()) }
    }
}

impl Clone for CompactString {
    /// A second value with the same text, in the same encoding. Text on the
    /// heap is shared, not copied; whichever of the two is written to first
    /// moves to a copy of its own, and the other keeps what it had.
    fn clone(&self) -> (res: Self)
        ensures
            self.wf() ==> res.wf(),
            self.raw() ==> res.raw(),
            res.model() == self.model(),
            res.buffer() == self.buffer(),
            res@ == self@,
    {
        match &self.repr {
            Repr::Block(block) => CompactString { repr: Repr::Block(*block) },
            Repr::Heap(heap) => CompactString { repr: Repr::Heap(heap.clone()) },
        }
    }
}

impl<'a> From<&'a str> for CompactString {
    /// A value that holds a copy of `text`, as [`CompactString::new`] makes
    /// it.
    fn from(text: &'a str) -> (res: Self)
        ensures
            res.wf(),
            res.model() == Model::text(encode_utf8(text@)),
            res@ == text@,
    {
        CompactString::new(text)
    }
}

impl<'a> vstd::std_specs::convert::FromSpecImpl<&'a str> for CompactString {
    open spec fn obeys_from_spec() -> bool {
        false
    }

    open spec fn from_spec(text: &'a str) -> Self {
        arbitrary()
    }
}

impl From<String> for CompactString {
    /// A value that takes over the buffer of `s`, as
    /// [`CompactString::from_string`] makes it.
    fn from(s: String) -> (res: Self)
        ensures
            res.wf(),
            res.model() == Model::adopted(encode_utf8(s@), res.is_heap()),
            res@ == s@,
            s@.len() > 0 ==> res.is_heap(),
    {
        CompactString::from_string(s)
    }
}

impl vstd::std_specs::convert::FromSpecImpl<String> for CompactString {
    open spec fn obeys_from_spec() -> bool {
        false
    }

    open spec fn from_spec(s: String) -> Self {
        arbitrary()
    }
}

impl From<Box<str>> for CompactString {
    /// A value that takes over the allocation of `text`, as
    /// [`CompactString::from_box_str`] makes it.
    fn from(text: Box<str>) -> (res: Self)
        ensures
            res.wf(),
            res.model() == Model::adopted(encode_utf8(text@), encode_utf8(text@).len() != 0),
            res@ == text@,
    {
        CompactString::from_box_str(text)
    }
}

impl vstd::std_specs::convert::FromSpecImpl<Box<str>> for CompactString {
    open spec fn obeys_from_spec() -> bool {
        false
    }

    open spec fn from_spec(text: Box<str>) -> Self {
        arbitrary()
    }
}

impl core::str::FromStr for CompactString {
    type Err = core::convert::Infallible;

    /// A value that holds a copy of `text`; this never fails.
    fn from_str(text: &str) -> (res: Result<Self, Self::Err>)
        ensures
            res matches Ok(s) && s.wf() && s.model() == Model::text(encode_utf8(text@)) && s@
                == text@,
    {
        Ok(CompactString::new(text))
    }
}

} // verus!
