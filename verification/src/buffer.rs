//! The truncating buffer.

use crate::boundary::floor_boundary;
use crate::boundary::floor_char_boundary;
use crate::boundary::lemma_floor_boundary_is_greatest;
use crate::fitting::byte_len;
use crate::fitting::fitting_prefix;
use crate::fitting::lemma_byte_len_push;
use crate::fitting::lemma_encode_utf8_concat;
use crate::fitting::lemma_encode_utf8_injective;
use crate::fitting::lemma_fits_whole;
use crate::fitting::lemma_fitting_prefix_ends_at_floor_boundary;
use crate::fitting::lemma_split_keeps_every_byte;
use crate::fitting::overflowing_suffix;
use crate::fitting::scalar_width;
use crate::fitting::utf8_width;
use crate::trusted::capacity_error;
use crate::trusted::overflow_rest;
use crate::trusted::push_char;
use crate::trusted::write_error;
use arrayvec::CapacityError;
use vstd::prelude::*;
use vstd::string::*;
use vstd::utf8::*;

verus! {

/// A text buffer that never holds more than `CAP` bytes of UTF-8 and never
/// holds part of a scalar.
///
/// Its view is the stored text as a sequence of scalars.
#[derive(Debug)]
pub struct TruncatingArrayString<const CAP: usize>(String);

impl<const CAP: usize> View for TruncatingArrayString<CAP> {
    type V = Seq<char>;

    closed spec fn view(&self) -> Seq<char> {
        self.0@
    }
}

impl<const CAP: usize> TruncatingArrayString<CAP> {
    /// The encoding of the stored text takes no more than `CAP` bytes.
    #[verifier::type_invariant]
    spec fn within_capacity(&self) -> bool {
        byte_len(self.0@) <= CAP
    }

    /// Number of bytes still free.
    pub open spec fn room(&self) -> int {
        CAP - byte_len(self@)
    }

    /// An empty buffer.
    pub fn new() -> (buf: Self)
        ensures
            buf@ == Seq::<char>::empty(),
            buf.room() == CAP,
    {
        Self(String::new())
    }

    /// Number of bytes in use.
    pub fn len(&self) -> (n: usize)
        ensures
            n == byte_len(self@),
            n <= CAP,
    {
        proof {
            use_type_invariant(self);
        }
        self.0.as_str().as_bytes().len()
    }

    /// Number of bytes that the buffer can hold.
    pub fn capacity(&self) -> (n: usize)
        ensures
            n == CAP,
    {
        CAP
    }

    /// The stored text.
    pub fn as_str(&self) -> (s: &str)
        ensures
            s@ == self@,
    {
        self.0.as_str()
    }

    /// A copy of the stored text, as it stands.
    pub fn to_string(&self) -> (s: String)
        ensures
            s@ == self@,
    {
        self.0.clone()
    }

    /// Appends `s`, which has to fit.
    fn push_str(&mut self, s: &str)
        requires
            byte_len(s@) <= old(self).room(),
        ensures
            final(self)@ == old(self)@ + s@,
    {
        proof {
            lemma_encode_utf8_concat(self@, s@);
        }
        // The text grows outside the buffer and is put back whole, so that the
        // buffer is within its capacity at every moment.
        let mut text = String::new();
        core::mem::swap(&mut self.0, &mut text);
        text.append(s);
        self.0 = text;
    }

    /// Appends `c`, which has to fit.
    fn push(&mut self, c: char)
        requires
            scalar_width(c) <= old(self).room(),
        ensures
            final(self)@ == old(self)@.push(c),
    {
        proof {
            lemma_byte_len_push(self@, c);
        }
        let mut text = String::new();
        core::mem::swap(&mut self.0, &mut text);
        push_char(&mut text, c);
        self.0 = text;
    }

    /// Appends as much of `s` as fits and hands back the rest.
    ///
    /// The buffer takes the longest prefix of `s` that is made of whole
    /// scalars and fits into the free bytes. If that is all of `s`, the
    /// result is `Ok`. Otherwise the result is an error that carries what
    /// follows the prefix, which is not empty.
    pub fn try_push_str_truncate<'a>(&mut self, s: &'a str) -> (res: Result<
        (),
        CapacityError<&'a str>,
    >)
        ensures
            final(self)@ == old(self)@ + fitting_prefix(s@, old(self).room()),
            res is Ok <==> byte_len(s@) <= old(self).room(),
            res matches Err(e) ==> overflow_rest(e) == overflowing_suffix(s@, old(self).room()),
            res matches Err(e) ==> overflow_rest(e).len() > 0,
            byte_len(s@) <= old(self).room() ==> final(self)@ == old(self)@ + s@,
            byte_len(final(self)@) <= CAP,
            byte_len(final(self)@) + (match res {
                Ok(_) => 0,
                Err(e) => byte_len(overflow_rest(e)),
            }) == byte_len(old(self)@) + byte_len(s@),
            encode_utf8(final(self)@) == encode_utf8(old(self)@) + s.spec_bytes().subrange(
                0,
                floor_boundary(s.spec_bytes(), old(self).room()),
            ),
            is_char_boundary(s.spec_bytes(), floor_boundary(s.spec_bytes(), old(self).room())),
            valid_utf8(encode_utf8(final(self)@)),
    {
        let remaining_capacity = self.capacity() - self.len();
        proof {
            let room = remaining_capacity as int;
            lemma_fits_whole(s@, room);
            lemma_split_keeps_every_byte(s@, room);
            lemma_fitting_prefix_ends_at_floor_boundary(s@, room);
            lemma_encode_utf8_concat(self@, fitting_prefix(s@, room));
            encode_utf8_valid_utf8(s@);
            encode_utf8_valid_utf8(self@ + fitting_prefix(s@, room));
            lemma_floor_boundary_is_greatest(s.spec_bytes(), room);
        }
        if s.as_bytes().len() < remaining_capacity {
            self.push_str(s);
            Ok(())
        } else {
            let (fits, rest) = s.split_at(floor_char_boundary(s, remaining_capacity));
            proof {
                let room = remaining_capacity as int;
                lemma_encode_utf8_injective(fits@, fitting_prefix(s@, room));
                lemma_encode_utf8_injective(rest@, overflowing_suffix(s@, room));
            }
            self.push_str(fits);
            if rest.is_empty() {
                Ok(())
            } else {
                Err(capacity_error(rest))
            }
        }
    }
}

impl<const CAP: usize> core::fmt::Write for TruncatingArrayString<CAP> {
    /// Appends `c` if all of its encoding fits, and nothing of it otherwise.
    fn write_char(&mut self, c: char) -> (res: Result<(), core::fmt::Error>)
        ensures
            res is Ok <==> scalar_width(c) <= old(self).room(),
            res is Ok ==> final(self)@ == old(self)@.push(c),
            res is Err ==> final(self)@ == old(self)@,
            byte_len(final(self)@) <= CAP,
    {
        if utf8_width(c) <= self.capacity() - self.len() {
            self.push(c);
            proof {
                lemma_byte_len_push(old(self)@, c);
            }
            Ok(())
        } else {
            proof {
                use_type_invariant(&*self);
            }
            Err(write_error())
        }
    }

    /// Appends as much of `s` as fits, and fails if that is not all of it.
    /// What did not fit is dropped.
    fn write_str(&mut self, s: &str) -> (res: Result<(), core::fmt::Error>)
        ensures
            final(self)@ == old(self)@ + fitting_prefix(s@, old(self).room()),
            res is Ok <==> byte_len(s@) <= old(self).room(),
            byte_len(final(self)@) <= CAP,
    {
        match self.try_push_str_truncate(s) {
            Ok(_) => Ok(()),
            Err(_) => Err(write_error()),
        }
    }
}

} // verus!
