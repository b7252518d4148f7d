//! How much of a text fits into a given number of bytes.
//!
//! The buffer counts its capacity in bytes of UTF-8 but only ever stores
//! whole scalars. This module says, over sequences of scalars, which part of
//! a text goes into a given room and which part stays out, and ties that
//! description to character boundaries in the encoded bytes.

use crate::boundary::floor_boundary;
use crate::boundary::lemma_floor_boundary_inside_first_scalar;
use crate::boundary::lemma_floor_boundary_skips_first_scalar;
use vstd::prelude::*;
use vstd::utf8::*;

verus! {

/// Number of bytes that the encoding of `c` takes.
pub open spec fn scalar_width(c: char) -> nat {
    encode_scalar(c as u32).len()
}

/// Number of bytes that the encoding of `text` takes.
pub open spec fn byte_len(text: Seq<char>) -> nat {
    encode_utf8(text).len()
}

/// How many leading scalars of `text` fit, one after the other, into `room`
/// bytes.
pub open spec fn fitting_count(text: Seq<char>, room: int) -> nat
    decreases text.len(),
{
    if text.len() == 0 || scalar_width(text[0]) > room {
        0
    } else {
        1 + fitting_count(text.drop_first(), room - scalar_width(text[0]))
    }
}

/// The part of `text` that goes into `room` bytes: its longest prefix whose
/// encoding is no longer than `room`.
pub open spec fn fitting_prefix(text: Seq<char>, room: int) -> Seq<char> {
    text.take(fitting_count(text, room) as int)
}

/// The part of `text` that stays out of `room` bytes: what follows the
/// fitting prefix.
pub open spec fn overflowing_suffix(text: Seq<char>, room: int) -> Seq<char> {
    text.skip(fitting_count(text, room) as int)
}

/// Number of bytes that the encoding of `c` takes.
pub fn utf8_width(c: char) -> (width: usize)
    ensures
        width == scalar_width(c),
        1 <= width <= 4,
{
    let code: u32 = c as u32;
    if code < 0x80 {
        1
    } else if code < 0x800 {
        2
    } else if code < 0x10000 {
        3
    } else {
        4
    }
}

/// The encoding of a concatenation is the concatenation of the encodings.
pub proof fn lemma_encode_utf8_concat(a: Seq<char>, b: Seq<char>)
    ensures
        encode_utf8(a + b) == encode_utf8(a) + encode_utf8(b),
        byte_len(a + b) == byte_len(a) + byte_len(b),
    decreases a.len(),
{
    if a.len() == 0 {
        assert(a + b == b);
        assert(encode_utf8(a) + encode_utf8(b) == encode_utf8(b));
    } else {
        assert((a + b).drop_first() == a.drop_first() + b);
        lemma_encode_utf8_concat(a.drop_first(), b);
        assert(encode_utf8(a + b) == encode_utf8(a) + encode_utf8(b));
    }
}

/// Appending one scalar adds its width to the byte length.
pub proof fn lemma_byte_len_push(text: Seq<char>, c: char)
    ensures
        byte_len(text.push(c)) == byte_len(text) + scalar_width(c),
{
    let one = seq![c];
    assert(one.drop_first() == Seq::<char>::empty());
    assert(encode_utf8(one) == encode_scalar(c as u32)) by {
        reveal_with_fuel(encode_utf8, 2);
    }
    assert(text.push(c) == text + one);
    lemma_encode_utf8_concat(text, one);
}

/// Two texts with the same encoding are the same text.
pub proof fn lemma_encode_utf8_injective(a: Seq<char>, b: Seq<char>)
    requires
        encode_utf8(a) == encode_utf8(b),
    ensures
        a == b,
{
    encode_utf8_decode_utf8(a);
    encode_utf8_decode_utf8(b);
}

/// The encoding of a non-empty prefix starts with the first scalar and goes
/// on with the rest of the prefix.
proof fn lemma_byte_len_take_step(text: Seq<char>, j: int)
    requires
        1 <= j <= text.len(),
    ensures
        byte_len(text.take(j)) == scalar_width(text[0]) + byte_len(text.drop_first().take(j - 1)),
{
    assert(text.take(j).drop_first() == text.drop_first().take(j - 1));
}

/// The fitting prefix fits, and it is the longest prefix that does: every
/// longer prefix of the text takes more than `room` bytes.
pub proof fn lemma_fitting_prefix_is_longest(text: Seq<char>, room: int)
    requires
        0 <= room,
    ensures
        fitting_count(text, room) <= text.len(),
        byte_len(fitting_prefix(text, room)) <= room,
        forall|j: int|
            fitting_count(text, room) < j <= text.len() ==> byte_len(#[trigger] text.take(j))
                > room,
    decreases text.len(),
{
    let count = fitting_count(text, room) as int;
    if text.len() == 0 {
        assert(text.take(0) == Seq::<char>::empty());
    } else if scalar_width(text[0]) > room {
        assert(text.take(0) == Seq::<char>::empty());
        assert forall|j: int| 0 < j <= text.len() implies byte_len(#[trigger] text.take(j))
            > room by {
            lemma_byte_len_take_step(text, j);
        }
    } else {
        let tail = text.drop_first();
        let left = room - scalar_width(text[0]);
        lemma_fitting_prefix_is_longest(tail, left);
        lemma_byte_len_take_step(text, count);
        assert forall|j: int| count < j <= text.len() implies byte_len(#[trigger] text.take(j))
            > room by {
            lemma_byte_len_take_step(text, j);
            assert(byte_len(tail.take(j - 1)) > left);
        }
    }
}

/// A text that takes no more than `room` bytes fits whole, and only such a
/// text does.
pub proof fn lemma_fits_whole(text: Seq<char>, room: int)
    requires
        0 <= room,
    ensures
        byte_len(text) <= room <==> fitting_count(text, room) == text.len(),
        byte_len(text) <= room ==> fitting_prefix(text, room) == text,
        byte_len(text) <= room ==> overflowing_suffix(text, room) == Seq::<char>::empty(),
{
    lemma_fitting_prefix_is_longest(text, room);
    assert(text.take(text.len() as int) == text);
    if byte_len(text) <= room {
        assert(text.skip(text.len() as int) == Seq::<char>::empty());
    }
}

/// Splitting a text into its fitting prefix and its overflowing suffix loses
/// no byte and repeats none: the two parts make up the text, and their byte
/// lengths add up to that of the text.
pub proof fn lemma_split_keeps_every_byte(text: Seq<char>, room: int)
    requires
        0 <= room,
    ensures
        fitting_prefix(text, room) + overflowing_suffix(text, room) == text,
        byte_len(fitting_prefix(text, room)) + byte_len(overflowing_suffix(text, room))
            == byte_len(text),
{
    lemma_fitting_prefix_is_longest(text, room);
    let head = fitting_prefix(text, room);
    let rest = overflowing_suffix(text, room);
    assert(head + rest == text);
    lemma_encode_utf8_concat(head, rest);
}

/// A text that is within a capacity stays within it when the fitting prefix
/// of any other text, measured against the bytes still free, is appended.
pub proof fn lemma_append_stays_within_capacity(
    stored: Seq<char>,
    input: Seq<char>,
    capacity: int,
)
    requires
        byte_len(stored) <= capacity,
    ensures
        byte_len(stored + fitting_prefix(input, capacity - byte_len(stored))) <= capacity,
{
    let room = capacity - byte_len(stored);
    lemma_fitting_prefix_is_longest(input, room);
    lemma_encode_utf8_concat(stored, fitting_prefix(input, room));
}

/// In the encoded bytes, the fitting prefix ends at the greatest character
/// boundary that does not exceed `room`: its encoding is the bytes below that
/// boundary and the encoding of the overflowing suffix is the bytes from it on.
pub proof fn lemma_fitting_prefix_ends_at_floor_boundary(text: Seq<char>, room: int)
    requires
        0 <= room,
    ensures
        byte_len(fitting_prefix(text, room)) == floor_boundary(encode_utf8(text), room),
        encode_utf8(fitting_prefix(text, room)) == encode_utf8(text).subrange(
            0,
            floor_boundary(encode_utf8(text), room),
        ),
        encode_utf8(overflowing_suffix(text, room)) == encode_utf8(text).subrange(
            floor_boundary(encode_utf8(text), room),
            encode_utf8(text).len() as int,
        ),
{
    let bytes = encode_utf8(text);
    let head = fitting_prefix(text, room);
    let rest = overflowing_suffix(text, room);
    lemma_fitting_bytes(text, room);
    lemma_split_keeps_every_byte(text, room);
    lemma_encode_utf8_concat(head, rest);
    assert(encode_utf8(head) == bytes.subrange(0, byte_len(head) as int));
    assert(encode_utf8(rest) == bytes.subrange(byte_len(head) as int, bytes.len() as int));
}

proof fn lemma_fitting_bytes(text: Seq<char>, room: int)
    requires
        0 <= room,
    ensures
        byte_len(fitting_prefix(text, room)) == floor_boundary(encode_utf8(text), room),
    decreases text.len(),
{
    let bytes = encode_utf8(text);
    let count = fitting_count(text, room) as int;
    encode_utf8_valid_utf8(text);
    if text.len() == 0 {
        assert(text.take(0) == Seq::<char>::empty());
    } else {
        let tail = text.drop_first();
        let width = scalar_width(text[0]) as int;
        encode_utf8_first_scalar(text);
        assert(pop_first_scalar(bytes) == encode_utf8(tail));
        if width > room {
            assert(text.take(0) == Seq::<char>::empty());
            lemma_floor_boundary_inside_first_scalar(bytes, room);
        } else {
            lemma_fitting_prefix_is_longest(text, room);
            lemma_fitting_bytes(tail, room - width);
            lemma_byte_len_take_step(text, count);
            lemma_floor_boundary_skips_first_scalar(bytes, room);
        }
    }
}

} // verus!
