//! Character boundaries in UTF-8 encoded text.
//!
//! A boundary is a byte offset at which the encoding of a scalar starts, or
//! the end of the text. Cutting encoded text at a boundary leaves two pieces
//! that are both well-formed.

use vstd::prelude::*;
use vstd::string::*;
use vstd::utf8::*;

verus! {

/// The greatest character boundary of `bytes` that does not exceed `index`.
/// An index at or past the end is clamped to the end.
pub open spec fn floor_boundary(bytes: Seq<u8>, index: int) -> int
    decreases index,
{
    if index >= bytes.len() {
        bytes.len() as int
    } else if index <= 0 {
        0
    } else if is_char_boundary(bytes, index) {
        index
    } else {
        floor_boundary(bytes, index - 1)
    }
}

/// `floor_boundary` is what its name says: a character boundary at or below
/// the index (the end of the text when the index is at or past it), with no
/// other boundary between it and the index.
pub proof fn lemma_floor_boundary_is_greatest(bytes: Seq<u8>, index: int)
    requires
        valid_utf8(bytes),
        0 <= index,
    ensures
        0 <= floor_boundary(bytes, index) <= bytes.len(),
        floor_boundary(bytes, index) <= index,
        index >= bytes.len() ==> floor_boundary(bytes, index) == bytes.len(),
        is_char_boundary(bytes, floor_boundary(bytes, index)),
        forall|j: int|
            floor_boundary(bytes, index) < j <= index ==> !#[trigger] is_char_boundary(bytes, j),
    decreases index,
{
    is_char_boundary_start_end_of_seq(bytes);
    if index >= bytes.len() {
    } else if index <= 0 {
    } else if is_char_boundary(bytes, index) {
    } else {
        lemma_floor_boundary_is_greatest(bytes, index - 1);
    }
}

/// Past the first scalar, the floor boundary of a text is that of the text
/// without its first scalar, moved by the first scalar's width.
pub(crate) proof fn lemma_floor_boundary_skips_first_scalar(bytes: Seq<u8>, index: int)
    requires
        valid_utf8(bytes),
        bytes.len() > 0,
        index >= length_of_first_scalar(bytes),
    ensures
        floor_boundary(bytes, index) == length_of_first_scalar(bytes) + floor_boundary(
            pop_first_scalar(bytes),
            index - length_of_first_scalar(bytes),
        ),
    decreases index,
{
    if index >= bytes.len() {
    } else if is_char_boundary(bytes, index) {
    } else {
        // The end of the first scalar is a boundary, so `index` lies above it.
        assert(is_char_boundary(pop_first_scalar(bytes), 0));
        lemma_floor_boundary_skips_first_scalar(bytes, index - 1);
    }
}

/// No character boundary lies inside the first scalar, so the floor boundary
/// of an index inside it is the start of the text.
pub(crate) proof fn lemma_floor_boundary_inside_first_scalar(bytes: Seq<u8>, index: int)
    requires
        valid_utf8(bytes),
        bytes.len() > 0,
        0 <= index < length_of_first_scalar(bytes),
    ensures
        floor_boundary(bytes, index) == 0,
    decreases index,
{
    if index > 0 {
        reveal_with_fuel(is_char_boundary, 2);
        assert(!is_char_boundary(bytes, index));
        lemma_floor_boundary_inside_first_scalar(bytes, index - 1);
    }
}

/// A scalar takes at most four bytes, so the floor boundary of an index
/// inside the text lies at most three bytes below it.
pub proof fn lemma_floor_boundary_within_three(bytes: Seq<u8>, index: int)
    requires
        valid_utf8(bytes),
        0 <= index < bytes.len(),
    ensures
        index - 3 <= floor_boundary(bytes, index) <= index,
    decreases bytes.len(),
{
    let width = length_of_first_scalar(bytes);
    lemma_floor_boundary_is_greatest(bytes, index);
    if index >= width {
        lemma_floor_boundary_skips_first_scalar(bytes, index);
        lemma_floor_boundary_within_three(pop_first_scalar(bytes), index - width);
    }
}

/// Well-formed text followed by another well-formed text that is cut at a
/// floor boundary is well-formed: it ends with a whole scalar.
pub proof fn lemma_cut_at_floor_boundary_is_well_formed(
    stored: Seq<u8>,
    input: Seq<u8>,
    index: int,
)
    requires
        valid_utf8(stored),
        valid_utf8(input),
        0 <= index,
    ensures
        valid_utf8(input.subrange(0, floor_boundary(input, index))),
        valid_utf8(stored + input.subrange(0, floor_boundary(input, index))),
{
    lemma_floor_boundary_is_greatest(input, index);
    valid_utf8_split(input, floor_boundary(input, index));
    valid_utf8_concat(stored, input.subrange(0, floor_boundary(input, index)));
}

/// Whether `b` can start the encoding of a scalar, that is, whether it is
/// anything but a continuation byte.
pub fn is_utf8_char_boundary(b: u8) -> (r: bool)
    ensures
        r == !is_continuation_byte(b),
{
    // Read as a signed byte, the continuation bytes are exactly those below -0x40.
    let signed: i8 = #[verifier::truncate] (b as i8);
    assert(signed >= -0x40i8 <==> (b < 0x80u8 || b >= 0xc0u8)) by (bit_vector)
        requires
            signed == b as i8,
    ;
    signed >= -0x40
}

/// The greatest character boundary of `s` that does not exceed `index`: the
/// length of `s` if `index` is at or past the end, else `index` itself or one
/// of the three offsets before it.
pub fn floor_char_boundary(s: &str, index: usize) -> (b: usize)
    ensures
        b == floor_boundary(s.spec_bytes(), index as int),
        b <= s.spec_bytes().len(),
        index >= s.spec_bytes().len() ==> b == s.spec_bytes().len(),
        index < s.spec_bytes().len() ==> b <= index <= b + 3,
        is_char_boundary(s.spec_bytes(), b as int),
        valid_utf8(s.spec_bytes().subrange(0, b as int)),
        forall|j: int| b < j <= index ==> !#[trigger] is_char_boundary(s.spec_bytes(), j),
{
    let bytes = s.as_bytes();
    proof {
        encode_utf8_valid_utf8(s@);
        lemma_floor_boundary_is_greatest(bytes@, index as int);
        valid_utf8_split(bytes@, floor_boundary(bytes@, index as int));
    }
    if index >= bytes.len() {
        bytes.len()
    } else {
        let lower_bound = index.saturating_sub(3);
        let mut i = index;
        while i > lower_bound && !is_utf8_char_boundary(bytes[i])
            invariant
                lower_bound <= i <= index < bytes@.len(),
                valid_utf8(bytes@),
                floor_boundary(bytes@, i as int) == floor_boundary(bytes@, index as int),
            decreases i,
        {
            proof {
                is_char_boundary_iff_not_is_continuation_byte(bytes@, i as int);
            }
            i -= 1;
        }
        proof {
            // Either the byte at `i` starts a scalar, or the three bytes above
            // it do not and `i` is as far down as a scalar can reach.
            lemma_floor_boundary_within_three(bytes@, index as int);
            is_char_boundary_iff_not_is_continuation_byte(bytes@, i as int);
            lemma_floor_boundary_is_greatest(bytes@, i as int);
        }
        i
    }
}

} // verus!
