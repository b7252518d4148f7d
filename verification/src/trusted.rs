//! What this crate takes on trust from the code it builds on.
//!
//! Nothing here is proved. Each item says of one outside type or function
//! what the rest of the crate relies on.

use arrayvec::CapacityError;
use vstd::prelude::*;

verus! {

/// `arrayvec::CapacityError<T>`: the error of an append that ran out of
/// room. It carries one value of type `T` and keeps it private.
#[verifier::external_type_specification]
#[verifier::external_body]
#[verifier::reject_recursive_types(T)]
pub struct ExCapacityError<T>(CapacityError<T>);

/// `core::fmt::Error`: the error of a formatted write. It says that the write
/// failed and nothing else.
#[verifier::external_type_specification]
#[verifier::external_body]
pub struct ExFmtError(core::fmt::Error);

/// The text that a capacity error carries, which
/// `CapacityError::element` hands out.
pub uninterp spec fn overflow_rest(e: CapacityError<&str>) -> Seq<char>;

/// `CapacityError::new`: the error that carries `rest`.
#[verifier::external_body]
pub(crate) fn capacity_error<'a>(rest: &'a str) -> (e: CapacityError<&'a str>)
    ensures
        overflow_rest(e) == rest@,
{
    CapacityError::new(rest)
}

/// `core::fmt::Error`: the one value of that type.
#[verifier::external_body]
pub(crate) fn write_error() -> core::fmt::Error {
    core::fmt::Error
}

/// `String::push`: appends the scalar `c` to the end of `text`.
#[verifier::external_body]
pub(crate) fn push_char(text: &mut String, c: char)
    ensures
        final(text)@ == old(text)@.push(c),
{
    text.push(c)
}

} // verus!
