//! The heap handle: sentinel padding and a reference-counted byte buffer.
//!
//! Clones share one buffer and each carries its own length. The buffer is
//! written only through exclusive access; a handle that finds it shared works
//! on a private copy.

use std::sync::Arc;
use vstd::prelude::*;
use vstd::slice::*;
use vstd::string::*;
use vstd::utf8::*;

use crate::discriminant::HEAP_MASK;

verus! {

/// Size of the sentinel padding: the part of the block that the pointer and
/// the length leave free.
pub const PADDING_SIZE: usize = 8;

/// `Arc::clone` of the standard library: another handle to the same
/// allocation, which therefore holds the same bytes.
#[verifier::external_body]
fn arc_clone(handle: &Arc<Vec<u8>>) -> (res: Arc<Vec<u8>>)
    ensures
        res@ == handle@,
{
    Arc::clone(handle)
}

/// `Arc::get_mut` of the standard library: exclusive access to the buffer
/// where no other handle shares it, `None` otherwise. Which of the two comes
/// back depends on the reference count, so the contract states both: access
/// starts from the bytes that were there and what is written stays, and
/// without access nothing changes.
#[verifier::external_body]
fn arc_get_mut(handle: &mut Arc<Vec<u8>>) -> (res: Option<&mut Vec<u8>>)
    ensures
        match res {
            Some(buffer) => buffer@ == old(handle)@ && final(handle)@ == final(buffer)@,
            None => final(handle)@ == old(handle)@,
        },
{
    Arc::get_mut(handle)
}

/// `Arc::make_mut` of the standard library: exclusive access to the buffer,
/// after moving the handle to a fresh copy where another handle shares it.
/// Either way access starts from the same bytes, and what is written is what
/// the handle holds afterwards.
#[verifier::external_body]
fn arc_make_mut(handle: &mut Arc<Vec<u8>>) -> (res: &mut Vec<u8>)
    ensures
        res@ == old(handle)@,
        final(handle)@ == final(res)@,
{
    Arc::make_mut(handle)
}

/// Length of a buffer of `capacity` bytes after it was made to hold `needed`
/// bytes: a buffer grows to what is needed and never shrinks.
pub open spec fn grown(capacity: nat, needed: int) -> nat {
    if needed <= capacity {
        capacity
    } else {
        needed as nat
    }
}

/// Appends `extra` to `buffer`.
pub fn extend_bytes(buffer: &mut Vec<u8>, extra: &[u8])
    ensures
        final(buffer)@ == old(buffer)@ + extra@,
{
    buffer.extend_from_slice(extra);
    assert(buffer@ =~= old(buffer)@ + extra@);
}

/// Writes `extra` into `buffer` from index `at` on: over the bytes that are
/// there, and past the end where they do not suffice. What lies before `at`
/// stays, and so does what lies behind the written bytes.
pub fn write_at(buffer: &mut Vec<u8>, at: usize, extra: &[u8])
    requires
        at <= old(buffer)@.len(),
    ensures
        final(buffer)@.subrange(0, at as int) == old(buffer)@.subrange(0, at as int),
        final(buffer)@.subrange(at as int, at + extra@.len()) == extra@,
        final(buffer)@.len() == grown(old(buffer)@.len(), at + extra@.len()),
{
    let n = extra.len();
    if n <= buffer.len() - at {
        let mut i: usize = 0;
        while i < n
            invariant
                i <= n,
                n == extra@.len(),
                at + n <= buffer@.len() <= usize::MAX,
                buffer@.len() == old(buffer)@.len(),
                buffer@.subrange(0, at as int) == old(buffer)@.subrange(0, at as int),
                buffer@.subrange(at as int, at + i) == extra@.subrange(0, i as int),
            decreases n - i,
        {
            let ghost before = buffer@;
            buffer[at + i] = extra[i];
            assert(buffer@.subrange(0, at as int) =~= before.subrange(0, at as int));
            assert(buffer@.subrange(at as int, at + i + 1) =~= extra@.subrange(0, i + 1)) by {
                assert forall|k: int| 0 <= k < i + 1 implies buffer@[at + k] == extra@[k] by {
                    if k < i {
                        assert(before.subrange(at as int, at + i)[k] == extra@.subrange(
                            0,
                            i as int,
                        )[k]);
                    }
                }
            }
            i = i + 1;
        }
        assert(extra@.subrange(0, n as int) =~= extra@);
    } else {
        buffer.truncate(at);
        extend_bytes(buffer, extra);
        assert(buffer@.subrange(0, at as int) =~= old(buffer)@.subrange(0, at as int));
        assert(buffer@.subrange(at as int, at + extra@.len()) =~= extra@);
    }
}

/// A handle to text in a shared heap buffer.
///
/// The text is the first [`len`](HeapString::len) bytes of the buffer; the
/// rest of the buffer is room that was reserved. With its padding the handle
/// fills a block, and the padding puts the sentinel into the block's final
/// byte.
#[derive(Debug)]
pub struct HeapString {
    padding: [u8; PADDING_SIZE],
    string: Arc<Vec<u8>>,
    len: usize,
}

impl HeapString {
    /// The whole buffer, text and reserved room.
    pub closed spec fn buffer(&self) -> Seq<u8> {
        self.string@
    }

    /// Length of the text in bytes.
    pub closed spec fn spec_len(&self) -> nat {
        self.len as nat
    }

    /// The text.
    pub open spec fn bytes(&self) -> Seq<u8> {
        self.buffer().subrange(0, self.spec_len() as int)
    }

    /// Every byte of the padding is the sentinel.
    pub closed spec fn padded(&self) -> bool {
        forall|i: int| 0 <= i < PADDING_SIZE ==> self.padding@[i] == HEAP_MASK
    }

    /// The handle is in order but for the text, which may be any bytes: the
    /// state between a write through [`as_mut_bytes`](HeapString::as_mut_bytes)
    /// and [`set_len`](HeapString::set_len).
    pub open spec fn raw(&self) -> bool {
        self.padded()
    }

    /// The handle is in order, and its text lies within the buffer and is
    /// UTF-8.
    pub open spec fn wf(&self) -> bool {
        &&& self.padded()
        &&& self.spec_len() <= self.buffer().len()
        &&& valid_utf8(self.bytes())
    }

    /// A handle to `buffer`, which it takes over as it is, with the first
    /// `len` bytes as text.
    pub fn from_buffer(buffer: Vec<u8>, len: usize) -> (res: Self)
        requires
            len <= buffer@.len(),
            valid_utf8(buffer@.subrange(0, len as int)),
        ensures
            res.wf(),
            res.buffer() == buffer@,
            res.spec_len() == len,
    {
        HeapString { padding: [HEAP_MASK; PADDING_SIZE], string: Arc::new(buffer), len }
    }

    /// A handle to a fresh buffer that holds a copy of `text`.
    pub fn new(text: &str) -> (res: Self)
        ensures
            res.wf(),
            res.bytes() == encode_utf8(text@),
            res.buffer() == encode_utf8(text@),
    {
        let source = text.as_bytes();
        let buffer = slice_to_vec(source);
        proof {
            encode_utf8_valid_utf8(text@);
            assert(buffer@.subrange(0, buffer@.len() as int) =~= buffer@);
        }
        let len = buffer.len();
        HeapString::from_buffer(buffer, len)
    }

    /// A handle to the buffer of `s`, which it takes over without copying.
    pub fn from_string(s: String) -> (res: Self)
        ensures
            res.wf(),
            res.bytes() == encode_utf8(s@),
            res.buffer() == encode_utf8(s@),
    {
        let buffer = s.into_bytes();
        proof {
            encode_utf8_valid_utf8(s@);
            assert(buffer@.subrange(0, buffer@.len() as int) =~= buffer@);
        }
        let len = buffer.len();
        HeapString::from_buffer(buffer, len)
    }

    /// Length of the text in bytes.
    pub fn len(&self) -> (len: usize)
        ensures
            len == self.spec_len(),
    {
        self.len
    }

    /// Length of the buffer: the length up to which the text can grow in
    /// place.
    pub fn capacity(&self) -> (capacity: usize)
        ensures
            capacity == self.buffer().len(),
    {
        self.string.len()
    }

    /// The byte that the handle puts at the end of the block: the sentinel.
    pub fn last_byte(&self) -> (byte: u8)
        requires
            self.padded(),
        ensures
            byte == HEAP_MASK,
    {
        self.padding[PADDING_SIZE - 1]
    }

    /// The text.
    pub fn as_bytes(&self) -> (bytes: &[u8])
        requires
            self.wf(),
        ensures
            bytes@ == self.bytes(),
    {
        slice_subrange(self.string.as_slice(), 0, self.len)
    }

    /// The text as a string slice.
    pub fn as_str(&self) -> (text: &str)
        requires
            self.wf(),
        ensures
            encode_utf8(text@) == self.bytes(),
            text@ == decode_utf8(self.bytes()),
    {
        match core::str::from_utf8(self.as_bytes()) {
            Ok(text) => {
                proof {
                    encode_utf8_decode_utf8(text@);
                }
                text
            },
            Err(_) => {
                assert(false);
                ""
            },
        }
    }

    /// The whole buffer for writing, as [`exclusive_view`] gives it, if no
    /// other handle shares the buffer; `None`, and nothing changed, if one does.
    pub fn try_unique_mut(&mut self) -> (res: Option<&mut [u8]>)
        requires
            old(self).raw(),
        ensures
            match res {
                Some(view) => {
                    &&& view@ == old(self).buffer()
                    &&& final(self).buffer() == final(view)@
                },
                None => final(self).buffer() == old(self).buffer(),
            },
            final(self).spec_len() == old(self).spec_len(),
            final(self).padded(),
    {
        exclusive_view(arc_get_mut(&mut self.string))
    }

    /// The whole buffer for writing. Where another handle shares the buffer,
    /// this one moves to a private copy first, and the other keeps what it
    /// had.
    pub fn as_mut_bytes(&mut self) -> (view: &mut [u8])
        requires
            old(self).raw(),
        ensures
            view@ == old(self).buffer(),
            final(self).buffer() == final(view)@,
            final(self).spec_len() == old(self).spec_len(),
            final(self).padded(),
    {
        arc_make_mut(&mut self.string).as_mut_slice()
    }

    /// Makes the first `len` bytes of the buffer the text.
    pub fn set_len(&mut self, len: usize)
        requires
            old(self).raw(),
            len <= old(self).buffer().len(),
            valid_utf8(old(self).buffer().subrange(0, len as int)),
        ensures
            final(self).wf(),
            final(self).buffer() == old(self).buffer(),
            final(self).spec_len() == len,
    {
        self.len = len;
    }

    /// Appends `extra` to the text: into the reserved room where it suffices,
    /// into a longer buffer where it does not. The handle asks for exclusive
    /// access and writes in place if it gets it; if the buffer is shared, it
    /// writes to a copy and moves to that.
    pub fn append(&mut self, extra: &[u8])
        requires
            old(self).wf(),
            valid_utf8(extra@),
        ensures
            final(self).wf(),
            final(self).bytes() == old(self).bytes() + extra@,
            final(self).buffer().len() == grown(
                old(self).buffer().len(),
                (old(self).spec_len() + extra@.len()) as int,
            ),
    {
        let len = self.len;
        match arc_get_mut(&mut self.string) {
            Some(buffer) => {
                write_at(buffer, len, extra);
            },
            None => {
                let mut copy = slice_to_vec(self.string.as_slice());
                write_at(&mut copy, len, extra);
                self.string = Arc::new(copy);
            },
        }
        let room = self.string.len();
        proof {
            valid_utf8_concat(old(self).bytes(), extra@);
            assert(len + extra@.len() <= room);
        }
        self.len = len + extra.len();
        assert(self.bytes() =~= old(self).bytes() + extra@);
    }

    /// Grows the buffer to `capacity` bytes, if it is shorter: in place with
    /// exclusive access, in a copy where the buffer is shared. The text stays.
    /// No buffer has more than `isize::MAX` bytes.
    pub fn reserve_to(&mut self, capacity: usize)
        requires
            old(self).wf(),
            capacity <= isize::MAX,
        ensures
            final(self).wf(),
            final(self).bytes() == old(self).bytes(),
            final(self).buffer().len() == grown(old(self).buffer().len(), capacity as int),
    {
        if capacity > self.string.len() {
            match arc_get_mut(&mut self.string) {
                Some(buffer) => {
                    buffer.resize(capacity, 0u8);
                },
                None => {
                    let mut copy = slice_to_vec(self.string.as_slice());
                    copy.resize(capacity, 0u8);
                    self.string = Arc::new(copy);
                },
            }
            assert(self.bytes() =~= old(self).bytes());
        }
    }
}

/// The view that exclusive access to a buffer gives: the whole buffer as
/// bytes to write to, where `access` was granted, and `None` where it was
/// denied.
pub fn exclusive_view(access: Option<&mut Vec<u8>>) -> (res: Option<&mut [u8]>)
    ensures
        res is Some <==> access is Some,
        match (access, res) {
            (Some(buffer), Some(view)) => view@ == buffer@ && final(buffer)@ == final(view)@,
            _ => true,
        },
{
    match access {
        Some(buffer) => Some(buffer.as_mut_slice()),
        None => None,
    }
}

impl Clone for HeapString {
    /// A second handle to the same buffer, without copying the text.
    fn clone(&self) -> (res: Self)
        ensures
            res.buffer() == self.buffer(),
            res.spec_len() == self.spec_len(),
            res.padded(),
    {
        HeapString {
            padding: [HEAP_MASK; PADDING_SIZE],
            string: arc_clone(&self.string),
            len: self.len,
        }
    }
}

impl From<String> for HeapString {
    /// A handle to the buffer of `s`, as [`HeapString::from_string`] makes
    /// it.
    fn from(s: String) -> (res: Self)
        ensures
            res.wf(),
            res.bytes() == encode_utf8(s@),
            res.buffer() == encode_utf8(s@),
    {
        HeapString::from_string(s)
    }
}

impl vstd::std_specs::convert::FromSpecImpl<String> for HeapString {
    open spec fn obeys_from_spec() -> bool {
        false
    }

    open spec fn from_spec(s: String) -> Self {
        arbitrary()
    }
}

} // verus!
