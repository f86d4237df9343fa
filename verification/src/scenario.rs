//! Scenarios that drive a compact string next to a `String` of the standard
//! library: one way to create the pair, then a series of actions on both.
//!
//! Each step is specified by its effect on the text, and proved to leave the
//! two with the same text.

use std::collections::VecDeque;
use vstd::prelude::*;
use vstd::string::*;
use vstd::utf8::*;

use crate::compact_string::{concat, contiguous, CompactString};
use crate::discriminant::MAX_SIZE;
use crate::model::Model;
use crate::scalar::{lemma_encode_scalar_is_text, lemma_encode_utf8_concat};
use crate::std_specs::growth_limit;

verus! {

/// Longest text, in bytes, that a compact string holds without a heap buffer.
pub const MAX_INLINE_LENGTH: usize = MAX_SIZE;

/// The characters of all `pieces`, one piece after the other.
pub open spec fn concat_strings(pieces: Seq<String>) -> Seq<char>
    decreases pieces.len(),
{
    if pieces.len() == 0 {
        Seq::empty()
    } else {
        concat_strings(pieces.drop_last()) + pieces.last()@
    }
}

/// The text without its last `count` characters, or without any where it has
/// no more than that.
pub open spec fn without_last(text: Seq<char>, count: int) -> Seq<char> {
    if count >= text.len() {
        Seq::empty()
    } else {
        text.subrange(0, text.len() - count)
    }
}

/// One way to create a compact string and its control, with the actions to
/// perform on them.
#[derive(Debug)]
pub struct Scenario<'a> {
    pub creation: Creation<'a>,
    pub actions: Vec<Action<'a>>,
}

/// A way to create a compact string.
#[derive(Debug)]
pub enum Creation<'a> {
    /// From untrusted bytes in one piece.
    Bytes(&'a [u8]),
    /// From untrusted bytes in a buffer.
    Buf(&'a [u8]),
    /// From a series of characters.
    IterChar(Vec<char>),
    /// From a series of strings.
    IterString(Vec<String>),
    /// From a copy of text.
    Word(String),
    /// From untrusted bytes in a buffer that wraps around in memory.
    NonContiguousBuf(&'a [u8]),
    /// From a string, whose buffer is taken over.
    FromString(String),
    /// From boxed text, whose allocation is taken over.
    FromBoxStr(Box<str>),
}

/// An action on a compact string and its control.
#[derive(Debug)]
pub enum Action<'a> {
    /// Append a character.
    Push(char),
    /// Remove that many characters from the end.
    Pop(u8),
    /// Append text.
    PushStr(&'a str),
    /// Append a series of characters.
    ExtendChars(Vec<char>),
    /// Append a series of texts.
    ExtendStr(Vec<&'a str>),
    /// Compare a range of the bytes of the two, given by two fractions of
    /// their length in 255ths.
    CheckSubslice(u8, u8),
}

/// Whether `compact` has the length of `control`, and is on the heap exactly
/// if that is more than [`MAX_INLINE_LENGTH`].
pub fn assert_properly_allocated(compact: &CompactString, control: &str) -> (ok: bool)
    requires
        compact.wf(),
    ensures
        ok == (compact.bytes().len() == encode_utf8(control@).len() && compact.is_heap() == (
            encode_utf8(control@).len() > MAX_INLINE_LENGTH)),
{
    let len = control.as_bytes().len();
    compact.len() == len && compact.is_heap_allocated() == (len > MAX_INLINE_LENGTH)
}

/// Whether `compact` is on the heap exactly if its text is longer than
/// [`MAX_SIZE`].
pub fn assert_allocated_properly(compact: &CompactString) -> (ok: bool)
    requires
        compact.wf(),
    ensures
        ok == (compact.is_heap() == (compact.bytes().len() > MAX_SIZE)),
{
    compact.is_heap_allocated() == (compact.len() > MAX_SIZE)
}

/// Number of characters at the start of `chars` that encode to at most
/// `max_len` bytes together: the most that do.
pub fn chars_within(chars: &[char], max_len: usize) -> (count: usize)
    ensures
        count <= chars@.len(),
        encode_utf8(chars@.subrange(0, count as int)).len() <= max_len,
        count < chars@.len() ==> encode_utf8(chars@.subrange(0, count + 1)).len() > max_len,
{
    let n = chars.len();
    let mut count: usize = 0;
    let mut total: usize = 0;
    proof {
        assert(chars@.subrange(0, 0) =~= Seq::<char>::empty());
    }
    while count < n
        invariant
            count <= n,
            n == chars@.len(),
            total == encode_utf8(chars@.subrange(0, count as int)).len(),
            total <= max_len,
        decreases n - count,
    {
        let ch = chars[count];
        let (_, width) = crate::scalar::encode_char(ch);
        proof {
            let done = chars@.subrange(0, count as int);
            assert(chars@.subrange(0, count + 1) =~= done + seq![ch]);
            lemma_encode_utf8_concat(done, seq![ch]);
            lemma_encode_scalar_is_text(ch);
        }
        if width > max_len - total {
            return count;
        }
        total = total + width;
        count = count + 1;
    }
    count
}

impl<'a> Action<'a> {
    /// The text after the action.
    pub open spec fn effect(self, text: Seq<char>) -> Seq<char> {
        match self {
            Action::Push(ch) => text.push(ch),
            Action::Pop(count) => without_last(text, count as int),
            Action::PushStr(s) => text + s@,
            Action::ExtendChars(chars) => text + chars@,
            Action::ExtendStr(pieces) => text + concat(pieces@),
            Action::CheckSubslice(_, _) => text,
        }
    }

    /// The value after the action.
    pub open spec fn applied(self, m: Model) -> Model {
        match self {
            Action::Push(ch) => m.push(ch),
            Action::Pop(count) => m.pop_n(count as nat),
            Action::PushStr(s) => m.append(encode_utf8(s@)),
            Action::ExtendChars(chars) => m.append(encode_utf8(chars@)),
            Action::ExtendStr(pieces) => m.append(encode_utf8(concat(pieces@))),
            Action::CheckSubslice(_, _) => m,
        }
    }

    /// A bound on the number of bytes by which the action makes the text
    /// grow.
    pub open spec fn growth(self) -> nat {
        match self {
            Action::Push(_) => 4,
            Action::Pop(_) => 0,
            Action::PushStr(s) => encode_utf8(s@).len(),
            Action::ExtendChars(chars) => 4 * chars@.len(),
            Action::ExtendStr(pieces) => encode_utf8(concat(pieces@)).len(),
            Action::CheckSubslice(_, _) => 0,
        }
    }

    /// Performs the action on both strings. They hold the same text before,
    /// and they hold the same text after: the one that
    /// [`effect`](Action::effect) gives. The compact string becomes what
    /// [`applied`](Action::applied) gives: it moves to the heap when its text
    /// outgrows the block, and never back.
    pub fn perform(self, control: &mut String, compact: &mut CompactString)
        requires
            old(compact).wf(),
            old(control)@ == old(compact)@,
            old(compact).bytes().len() + self.growth() <= growth_limit(),
        ensures
            final(compact).wf(),
            final(compact).model() == self.applied(old(compact).model()),
            final(compact)@ == self.effect(old(compact)@),
            final(control)@ == final(compact)@,
            final(compact).is_heap() == (old(compact).is_heap() || final(compact).bytes().len()
                > MAX_SIZE),
    {
        proof {
            compact.lemma_wf();
            decode_utf8_encode_utf8(compact.bytes());
        }
        match self {
            Action::Push(ch) => {
                control.push(ch);
                compact.push(ch);
            },
            Action::Pop(count) => {
                let mut i: u8 = 0;
                proof {
                    assert(without_last(compact@, 0) =~= compact@);
                }
                while i < count
                    invariant
                        i <= count,
                        compact.wf(),
                        control@ == compact@,
                        compact@ == without_last(old(compact)@, i as int),
                        compact.model() == old(compact).model().pop_n(i as nat),
                        compact.is_heap() == old(compact).is_heap(),
                        compact.bytes().len() <= old(compact).bytes().len(),
                    decreases count - i,
                {
                    let ghost before = compact@;
                    proof {
                        compact.lemma_wf();
                    }
                    let a = control.pop();
                    let b = compact.pop();
                    assert(a == b);
                    proof {
                        compact.lemma_wf();
                        let whole = old(compact)@;
                        if before.len() > 0 {
                            assert(before.drop_last() =~= without_last(whole, i + 1));
                        } else {
                            assert(before =~= without_last(whole, i + 1));
                        }
                    }
                    i = i + 1;
                }
                proof {
                    compact.lemma_wf();
                    old(compact).lemma_wf();
                }
            },
            Action::PushStr(s) => {
                control.push_str(s);
                compact.push_str(s);
            },
            Action::ExtendChars(chars) => {
                let n = chars.len();
                let mut i: usize = 0;
                proof {
                    assert(chars@.subrange(0, 0) =~= Seq::<char>::empty());
                    assert(control@ + Seq::<char>::empty() =~= control@);
                    lemma_encode_len(Seq::<char>::empty());
                }
                while i < n
                    invariant
                        i <= n,
                        n == chars@.len(),
                        control@ == old(control)@ + chars@.subrange(0, i as int),
                        encode_utf8(old(control)@).len() + 4 * n <= growth_limit(),
                    decreases n - i,
                {
                    let ghost done = chars@.subrange(0, i as int);
                    proof {
                        lemma_encode_utf8_concat(old(control)@, done);
                        lemma_encode_len(done);
                    }
                    control.push(chars[i]);
                    assert(chars@.subrange(0, i + 1) =~= done.push(chars@[i as int]));
                    assert((old(control)@ + done).push(chars@[i as int]) =~= old(control)@
                        + done.push(chars@[i as int]));
                    i = i + 1;
                }
                assert(chars@.subrange(0, n as int) =~= chars@);
                compact.extend_chars(chars.as_slice());
            },
            Action::ExtendStr(pieces) => {
                let n = pieces.len();
                let mut i: usize = 0;
                proof {
                    assert(pieces@.subrange(0, 0) =~= Seq::<&str>::empty());
                    assert(control@ + Seq::<char>::empty() =~= control@);
                }
                while i < n
                    invariant
                        i <= n,
                        n == pieces@.len(),
                        control@ == old(control)@ + concat(pieces@.subrange(0, i as int)),
                        encode_utf8(old(control)@).len() + encode_utf8(concat(pieces@)).len()
                            <= growth_limit(),
                    decreases n - i,
                {
                    let ghost done = pieces@.subrange(0, i as int);
                    let piece = pieces[i];
                    proof {
                        let next = pieces@.subrange(0, i + 1);
                        assert(next.drop_last() =~= done);
                        assert(next.last() == piece);
                        lemma_encode_utf8_concat(old(control)@, concat(done));
                        lemma_encode_utf8_concat(concat(done), piece@);
                        lemma_concat_prefix_len(pieces@, i + 1);
                        assert((old(control)@ + concat(done)) + piece@ =~= old(control)@ + (
                        concat(done) + piece@));
                    }
                    control.push_str(piece);
                    i = i + 1;
                }
                assert(pieces@.subrange(0, n as int) =~= pieces@);
                compact.extend_strs(pieces.as_slice());
            },
            Action::CheckSubslice(_, _) => {
                assert(forall|lower: int, upper: int|
                    0 <= lower <= upper <= compact.bytes().len() ==> encode_utf8(
                        control@,
                    ).subrange(lower, upper) == compact.bytes().subrange(lower, upper));
            },
        }
        proof {
            compact.lemma_wf();
        }
    }
}

/// The encoding of text has at most four bytes for each character.
pub proof fn lemma_encode_len(chars: Seq<char>)
    ensures
        encode_utf8(chars).len() <= 4 * chars.len(),
    decreases chars.len(),
{
    if chars.len() > 0 {
        lemma_encode_len(chars.drop_first());
        lemma_encode_scalar_is_text(chars[0]);
    }
}

/// The first pieces of a series encode to no more bytes than all of them.
pub proof fn lemma_concat_prefix_len(pieces: Seq<&str>, n: int)
    requires
        0 <= n <= pieces.len(),
    ensures
        encode_utf8(concat(pieces.subrange(0, n))).len() <= encode_utf8(concat(pieces)).len(),
    decreases pieces.len() - n,
{
    if n < pieces.len() {
        lemma_concat_prefix_len(pieces, n + 1);
        let next = pieces.subrange(0, n + 1);
        assert(next.drop_last() =~= pieces.subrange(0, n));
        lemma_encode_utf8_concat(concat(pieces.subrange(0, n)), next.last()@);
    } else {
        assert(pieces.subrange(0, n) =~= pieces);
    }
}

/// The bytes of a buffer that was filled with the first half of `data` at
/// its back and then with the rest at its front, so that it wraps around:
/// the rest in reverse, then the first half. Short data is left in order.
pub open spec fn wrapped(data: Seq<u8>) -> Seq<u8> {
    if data.len() > 3 {
        let mid = data.len() / 2 + 1;
        data.subrange(mid as int, data.len() as int).reverse() + data.subrange(0, mid as int)
    } else {
        data
    }
}

fn control_from_utf8(bytes: &[u8]) -> (res: Option<String>)
    ensures
        res is Some <==> valid_utf8(bytes@),
        res matches Some(control) ==> control@ == decode_utf8(bytes@),
{
    match core::str::from_utf8(bytes) {
        Ok(text) => {
            proof {
                encode_utf8_decode_utf8(text@);
            }
            Some(text.to_owned())
        },
        Err(_) => None,
    }
}

fn queue_of(data: &[u8]) -> (queue: VecDeque<u8>)
    ensures
        queue@ == data@,
{
    let mut queue: VecDeque<u8> = VecDeque::new();
    let n = data.len();
    let mut i: usize = 0;
    while i < n
        invariant
            i <= n,
            n == data@.len(),
            queue@ == data@.subrange(0, i as int),
        decreases n - i,
    {
        queue.push_back(data[i]);
        assert(data@.subrange(0, i + 1) =~= data@.subrange(0, i as int).push(data@[i as int]));
        i = i + 1;
    }
    assert(data@.subrange(0, n as int) =~= data@);
    queue
}

fn wrapped_queue_of(data: &[u8]) -> (queue: VecDeque<u8>)
    ensures
        queue@ == wrapped(data@),
{
    let n = data.len();
    if n > 3 {
        let mid = n / 2 + 1;
        let mut queue: VecDeque<u8> = VecDeque::with_capacity(n);
        let mut i: usize = 0;
        while i < mid
            invariant
                i <= mid <= n,
                n == data@.len(),
                queue@ == data@.subrange(0, i as int),
            decreases mid - i,
        {
            queue.push_back(data[i]);
            assert(data@.subrange(0, i + 1) =~= data@.subrange(0, i as int).push(
                data@[i as int],
            ));
            i = i + 1;
        }
        let ghost front = data@.subrange(0, mid as int);
        let mut j: usize = mid;
        proof {
            assert(data@.subrange(mid as int, mid as int).reverse() + front =~= front);
        }
        while j < n
            invariant
                mid <= j <= n,
                n == data@.len(),
                front == data@.subrange(0, mid as int),
                queue@ == data@.subrange(mid as int, j as int).reverse() + front,
            decreases n - j,
        {
            queue.push_front(data[j]);
            assert(data@.subrange(mid as int, j + 1).reverse() + front =~= seq![data@[j as int]]
                + (data@.subrange(mid as int, j as int).reverse() + front));
            j = j + 1;
        }
        queue
    } else {
        queue_of(data)
    }
}

fn pair_up(compact: Result<CompactString, crate::utf8::Utf8Error>, control: Option<String>) -> (res:
    Option<(CompactString, String)>)
    requires
        compact is Ok <==> control is Some,
        compact matches Ok(c) ==> c.wf(),
    ensures
        res is Some <==> compact is Ok,
        res matches Some(pair) ==> compact == Ok::<CompactString, crate::utf8::Utf8Error>(pair.0)
            && control == Some(pair.1),
{
    match compact {
        Ok(c) => match control {
            Some(s) => Some((c, s)),
            None => None,
        },
        Err(_) => None,
    }
}

impl<'a> Creation<'a> {
    /// The bytes that the creation makes a string of.
    pub open spec fn source(self) -> Seq<u8> {
        match self {
            Creation::Bytes(data) => data@,
            Creation::Buf(data) => data@,
            Creation::IterChar(chars) => encode_utf8(chars@),
            Creation::IterString(strings) => encode_utf8(concat_strings(strings@)),
            Creation::Word(word) => encode_utf8(word@),
            Creation::NonContiguousBuf(data) => wrapped(data@),
            Creation::FromString(s) => encode_utf8(s@),
            Creation::FromBoxStr(text) => encode_utf8(text@),
        }
    }

    /// Whether the control can be built within [`growth_limit`].
    pub open spec fn fits(self) -> bool {
        match self {
            Creation::IterChar(chars) => 4 * chars@.len() <= growth_limit(),
            Creation::IterString(strings) => encode_utf8(concat_strings(strings@)).len()
                <= growth_limit(),
            _ => true,
        }
    }

    /// Whether `m` is allocated as this creation allocates: a string whose
    /// buffer is taken over is on the heap if it has text, boxed text is on
    /// the heap unless it is empty, and every copy is on the heap exactly if
    /// it is longer than the block.
    pub open spec fn allocates(self, m: Model) -> bool {
        match self {
            Creation::FromString(_) => m == Model::adopted(self.source(), true) || (
            self.source().len() == 0 && m == Model::adopted(self.source(), false)),
            Creation::FromBoxStr(_) => m == Model::adopted(
                self.source(),
                self.source().len() != 0,
            ),
            _ => m == Model::text(self.source()),
        }
    }

    /// Creates the compact string and its control, or neither where the
    /// bytes to make them of are not UTF-8. The two hold the same text, that
    /// of [`source`](Creation::source), and the compact string is allocated
    /// as [`allocates`](Creation::allocates) says.
    pub fn create(self) -> (res: Option<(CompactString, String)>)
        requires
            self.fits(),
        ensures
            res is Some <==> valid_utf8(self.source()),
            res matches Some(pair) ==> {
                &&& pair.0.wf()
                &&& pair.0.bytes() == self.source()
                &&& pair.1@ == pair.0@
                &&& self.allocates(pair.0.model())
            },
    {
        match self {
            Creation::Word(word) => {
                proof {
                    encode_utf8_valid_utf8(word@);
                }
                let compact = CompactString::new(word.as_str());
                Some((compact, word))
            },
            Creation::FromString(s) => {
                proof {
                    encode_utf8_valid_utf8(s@);
                }
                let control = s.clone();
                let compact = CompactString::from_string(s);
                proof {
                    compact.lemma_wf();
                }
                Some((compact, control))
            },
            Creation::FromBoxStr(text) => {
                proof {
                    encode_utf8_valid_utf8(text@);
                }
                let view: &str = &text;
                let control = view.to_owned();
                let compact = CompactString::from_box_str(text);
                Some((compact, control))
            },
            Creation::IterChar(chars) => {
                proof {
                    encode_utf8_valid_utf8(chars@);
                }
                let compact = CompactString::from_chars(chars.as_slice());
                let mut control = String::new();
                let n = chars.len();
                let mut i: usize = 0;
                proof {
                    assert(chars@.subrange(0, 0) =~= Seq::<char>::empty());
                }
                while i < n
                    invariant
                        i <= n,
                        n == chars@.len(),
                        control@ == chars@.subrange(0, i as int),
                        4 * n <= growth_limit(),
                    decreases n - i,
                {
                    proof {
                        lemma_encode_len(control@);
                    }
                    control.push(chars[i]);
                    assert(chars@.subrange(0, i + 1) =~= chars@.subrange(0, i as int).push(
                        chars@[i as int],
                    ));
                    i = i + 1;
                }
                assert(chars@.subrange(0, n as int) =~= chars@);
                Some((compact, control))
            },
            Creation::IterString(strings) => {
                proof {
                    encode_utf8_valid_utf8(concat_strings(strings@));
                }
                let mut compact = CompactString::default();
                let mut control = String::new();
                let n = strings.len();
                let mut i: usize = 0;
                proof {
                    assert(strings@.subrange(0, 0) =~= Seq::<String>::empty());
                    assert(encode_utf8(Seq::<char>::empty()) =~= Seq::<u8>::empty());
                }
                while i < n
                    invariant
                        i <= n,
                        n == strings@.len(),
                        compact.wf(),
                        control@ == concat_strings(strings@.subrange(0, i as int)),
                        compact@ == control@,
                        compact.model() == Model::text(encode_utf8(control@)),
                        encode_utf8(concat_strings(strings@)).len() <= growth_limit(),
                    decreases n - i,
                {
                    let ghost done = strings@.subrange(0, i as int);
                    let piece = strings[i].as_str();
                    proof {
                        let next = strings@.subrange(0, i + 1);
                        assert(next.drop_last() =~= done);
                        assert(next.last()@ == piece@);
                        lemma_encode_utf8_concat(concat_strings(done), piece@);
                        lemma_concat_strings_prefix_len(strings@, i + 1);
                        crate::model::law_allocation_boundary(
                            encode_utf8(concat_strings(done)),
                            encode_utf8(piece@),
                        );
                    }
                    control.push_str(piece);
                    compact.push_str(piece);
                    i = i + 1;
                }
                assert(strings@.subrange(0, n as int) =~= strings@);
                Some((compact, control))
            },
            Creation::Bytes(data) => {
                let compact = CompactString::from_utf8(data);
                let control = control_from_utf8(data);
                pair_up(compact, control)
            },
            Creation::Buf(data) => {
                let queue = queue_of(data);
                let compact = CompactString::from_utf8_buf(&queue);
                let control = control_from_utf8(data);
                pair_up(compact, control)
            },
            Creation::NonContiguousBuf(data) => {
                let queue = wrapped_queue_of(data);
                let compact = CompactString::from_utf8_buf(&queue);
                let bytes = contiguous(&queue);
                let control = control_from_utf8(bytes.as_slice());
                pair_up(compact, control)
            },
        }
    }
}

/// The first strings of a series encode to no more bytes than all of them.
pub proof fn lemma_concat_strings_prefix_len(pieces: Seq<String>, n: int)
    requires
        0 <= n <= pieces.len(),
    ensures
        encode_utf8(concat_strings(pieces.subrange(0, n))).len() <= encode_utf8(
            concat_strings(pieces),
        ).len(),
    decreases pieces.len() - n,
{
    if n < pieces.len() {
        lemma_concat_strings_prefix_len(pieces, n + 1);
        let next = pieces.subrange(0, n + 1);
        assert(next.drop_last() =~= pieces.subrange(0, n));
        lemma_encode_utf8_concat(concat_strings(pieces.subrange(0, n)), next.last()@);
    } else {
        assert(pieces.subrange(0, n) =~= pieces);
    }
}

} // verus!
