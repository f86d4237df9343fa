//! The abstract value of a compact string, and the laws of its operations.
//!
//! A value is its text, where the text lives, and how far the text can grow
//! in place. Every operation of [`CompactString`](crate::CompactString) is
//! specified as a function on this model, and the laws below are theorems
//! about those functions.

use vstd::prelude::*;
use vstd::utf8::*;

use crate::discriminant::MAX_SIZE;
use crate::heap::grown;
use crate::scalar::{lemma_decode_utf8_concat, lemma_encode_scalar_is_text};
use crate::utf8::{
    lemma_valid_up_to, lemma_valid_up_to_is_maximal, valid_up_to, validation, Utf8Error,
};

verus! {

/// The abstract value of a compact string.
pub struct Model {
    /// The text, as UTF-8.
    pub bytes: Seq<u8>,
    /// Whether the text lives in a heap buffer.
    pub heap: bool,
    /// Number of bytes that the text can reach without a new buffer.
    pub capacity: nat,
}

impl Model {
    /// The text is UTF-8 and fits its capacity, and a value that is not on the
    /// heap has the capacity of the block.
    pub open spec fn wf(self) -> bool {
        &&& valid_utf8(self.bytes)
        &&& self.bytes.len() <= self.capacity
        &&& (!self.heap ==> self.capacity == MAX_SIZE)
    }

    /// The characters of the text.
    pub open spec fn chars(self) -> Seq<char> {
        decode_utf8(self.bytes)
    }

    /// A value made from a copy of `bytes`: in the block where they fit, on
    /// the heap in a buffer of their length where they do not.
    pub open spec fn text(bytes: Seq<u8>) -> Model {
        Model {
            bytes,
            heap: bytes.len() > MAX_SIZE,
            capacity: grown(MAX_SIZE as nat, bytes.len() as int),
        }
    }

    /// A value that has taken over an owned buffer holding `bytes`: on the
    /// heap where the buffer had an allocation, the empty value in the block
    /// where it had none.
    pub open spec fn adopted(bytes: Seq<u8>, allocated: bool) -> Model {
        if allocated {
            Model { bytes, heap: true, capacity: bytes.len() }
        } else {
            Model::text(Seq::empty())
        }
    }

    /// The value after `extra` was appended: it moves to the heap when the
    /// text outgrows the block, and never back.
    pub open spec fn append(self, extra: Seq<u8>) -> Model {
        let len = self.bytes.len() + extra.len();
        Model {
            bytes: self.bytes + extra,
            heap: self.heap || len > MAX_SIZE,
            capacity: grown(self.capacity, len as int),
        }
    }

    /// The value after the character `c` was appended.
    pub open spec fn push(self, c: char) -> Model {
        self.append(encode_scalar(c as u32))
    }

    /// The character that a pop removes: the last one, if there is one.
    pub open spec fn popped(self) -> Option<char> {
        if self.bytes.len() == 0 {
            None
        } else {
            Some(decode_last_scalar(self.bytes) as char)
        }
    }

    /// The value after its last character was removed; the empty value stays
    /// as it is. A value on the heap stays there.
    pub open spec fn pop(self) -> Model {
        if self.bytes.len() == 0 {
            self
        } else {
            Model {
                bytes: self.bytes.subrange(0, self.bytes.len() - length_of_last_scalar(self.bytes)),
                heap: self.heap,
                capacity: self.capacity,
            }
        }
    }

    /// The value after `count` pops.
    pub open spec fn pop_n(self, count: nat) -> Model
        decreases count,
    {
        if count == 0 {
            self
        } else {
            self.pop_n((count - 1) as nat).pop()
        }
    }

    /// The value after its text was cut to `len` bytes; a text that is no
    /// longer than that stays as it is. A value on the heap stays there.
    pub open spec fn truncate(self, len: nat) -> Model {
        if len >= self.bytes.len() {
            self
        } else {
            Model {
                bytes: self.bytes.subrange(0, len as int),
                heap: self.heap,
                capacity: self.capacity,
            }
        }
    }

    /// The value after room for `additional` more bytes was reserved: the
    /// text is the same, and the value moves to the heap when the block
    /// cannot hold that much.
    pub open spec fn reserve(self, additional: nat) -> Model {
        let needed = self.bytes.len() + additional;
        Model {
            bytes: self.bytes,
            heap: self.heap || needed > MAX_SIZE,
            capacity: grown(self.capacity, needed as int),
        }
    }

    /// The value after the first `len` bytes of its buffer, which now holds
    /// `buffer`, were declared to be the text.
    pub open spec fn set_len(self, buffer: Seq<u8>, len: nat) -> Model {
        Model { bytes: buffer.subrange(0, len as int), heap: self.heap, capacity: self.capacity }
    }
}

/// What building a value from untrusted `bytes` gives: the value of that
/// text, or the error of the validation.
pub open spec fn from_utf8_model(bytes: Seq<u8>) -> Result<Model, Utf8Error> {
    match validation(bytes) {
        Ok(_) => Ok(Model::text(bytes)),
        Err(e) => Err(e),
    }
}

/// Round trip: bytes that are UTF-8 give a value whose text is those bytes,
/// of the same length.
pub proof fn law_round_trip(bytes: Seq<u8>)
    requires
        valid_utf8(bytes),
    ensures
        from_utf8_model(bytes) is Ok,
        from_utf8_model(bytes)->Ok_0.bytes == bytes,
        from_utf8_model(bytes)->Ok_0.bytes.len() == bytes.len(),
        from_utf8_model(bytes)->Ok_0.wf(),
{
}

/// Allocation boundary: a value made from a copy of text is on the heap
/// exactly when the text is longer than the block, and appending to it gives
/// the value that the whole text would have given.
pub proof fn law_allocation_boundary(bytes: Seq<u8>, extra: Seq<u8>)
    ensures
        Model::text(bytes).heap == (bytes.len() > MAX_SIZE),
        Model::text(bytes).append(extra) == Model::text(bytes + extra),
{
}

/// Rejection parity: a value is built exactly from the bytes that are UTF-8.
/// For other bytes the error gives the longest prefix that is UTF-8: the
/// prefix of that length is, and no longer one.
pub proof fn law_rejection_parity(bytes: Seq<u8>)
    requires
        bytes.len() <= usize::MAX,
    ensures
        from_utf8_model(bytes) is Ok <==> valid_utf8(bytes),
        from_utf8_model(bytes) matches Err(e) ==> {
            &&& e.valid_up_to == valid_up_to(bytes)
            &&& e.valid_up_to < bytes.len()
            &&& valid_utf8(bytes.subrange(0, e.valid_up_to as int))
            &&& forall|i: int|
                e.valid_up_to < i <= bytes.len() ==> !valid_utf8(#[trigger] bytes.subrange(0, i))
        },
{
    lemma_valid_up_to(bytes);
    if !valid_utf8(bytes) {
        assert forall|i: int| valid_up_to(bytes) < i <= bytes.len() implies !valid_utf8(
            #[trigger] bytes.subrange(0, i),
        ) by {
            lemma_valid_up_to_is_maximal(bytes, i);
        }
    }
}

/// Adoption: a buffer without an allocation gives the empty value in the
/// block; a buffer with one gives a value on the heap, even where it holds
/// no text.
pub proof fn law_adoption(bytes: Seq<u8>)
    ensures
        !Model::adopted(bytes, false).heap,
        Model::adopted(bytes, false).bytes.len() == 0,
        Model::adopted(bytes, true).heap,
        Model::adopted(bytes, true).bytes == bytes,
{
}

/// A clone is isolated from what is done to the value it was made from: it
/// holds the text that the value held then, and what is appended to the
/// value afterwards shows in the value and not in the clone.
pub proof fn law_clone_isolation(value: Model, clone: Model, extra: Seq<u8>)
    requires
        clone == value,
    ensures
        value.append(extra).bytes == clone.bytes + extra,
        extra.len() > 0 ==> value.append(extra).bytes != clone.bytes,
{
    if extra.len() > 0 {
        assert(value.append(extra).bytes.len() != clone.bytes.len());
    }
}

/// Reserve, write, set the length: from the empty value, reserving `n` bytes
/// leaves room for them, and declaring `n` written bytes to be the text gives
/// a value of exactly those bytes, on the heap exactly when `n` is more than
/// the block holds.
pub proof fn law_reserve_write_set_len(n: nat, buffer: Seq<u8>)
    requires
        buffer.len() == Model::text(Seq::empty()).reserve(n).capacity,
        valid_utf8(buffer.subrange(0, n as int)),
    ensures
        Model::text(Seq::empty()).reserve(n).capacity >= n,
        Model::text(Seq::empty()).reserve(n).bytes.len() == 0,
        Model::text(Seq::empty()).reserve(n).set_len(buffer, n).bytes == buffer.subrange(
            0,
            n as int,
        ),
        Model::text(Seq::empty()).reserve(n).set_len(buffer, n).heap == (n > MAX_SIZE),
        Model::text(Seq::empty()).reserve(n).set_len(buffer, n).wf(),
{
}

/// Extending by nothing changes nothing: neither the text nor where it
/// lives.
pub proof fn law_empty_extend(m: Model)
    requires
        m.wf(),
    ensures
        m.append(Seq::empty()) == m,
        m.append(encode_utf8(Seq::empty())) == m,
{
    assert(m.bytes + Seq::<u8>::empty() =~= m.bytes);
    assert(encode_utf8(Seq::<char>::empty()) =~= Seq::<u8>::empty());
}

/// Popping the empty value gives nothing and leaves the empty value, however
/// often it is done.
pub proof fn law_pop_empty(m: Model, count: nat)
    requires
        m.bytes.len() == 0,
    ensures
        m.popped() is None,
        m.pop() == m,
        m.pop_n(count) == m,
        m.pop_n(count).popped() is None,
    decreases count,
{
    if count > 0 {
        law_pop_empty(m, (count - 1) as nat);
    }
}

/// Appending in two steps is appending the whole.
pub proof fn lemma_append_append(m: Model, a: Seq<u8>, b: Seq<u8>)
    ensures
        m.append(a).append(b) == m.append(a + b),
{
    assert((m.bytes + a) + b =~= m.bytes + (a + b));
}

/// Appending text keeps a value well-formed, and appends its characters.
pub proof fn lemma_append_wf(m: Model, extra: Seq<u8>)
    requires
        m.wf(),
        valid_utf8(extra),
    ensures
        m.append(extra).wf(),
        m.append(extra).chars() == m.chars() + decode_utf8(extra),
{
    lemma_decode_utf8_concat(m.bytes, extra);
}

/// Appending a character appends it to the characters of the value.
pub proof fn lemma_push_chars(m: Model, c: char)
    requires
        m.wf(),
    ensures
        m.push(c).wf(),
        m.push(c).chars() == m.chars().push(c),
{
    lemma_encode_scalar_is_text(c);
    lemma_append_wf(m, encode_scalar(c as u32));
    assert(m.chars() + seq![c] =~= m.chars().push(c));
}

} // verus!
