//! Character encodings of atom names, as a set of flag bits.

#![allow(non_camel_case_types)]

use vstd::prelude::*;

verus! {

/// A set of atom character encodings; each encoding is one bit.
#[derive(Debug, Copy, Clone, PartialEq, Eq, Hash, Structural)]
pub struct erlang_char_encoding(pub u32);

/// The bit of seven-bit ASCII.
pub const ERLANG_ASCII: u32 = 1;

/// The bit of ISO 8859-1, one byte per character.
pub const ERLANG_LATIN1: u32 = 2;

/// The bit of UTF-8, one to four bytes per character.
pub const ERLANG_UTF8: u32 = 4;

impl erlang_char_encoding {
    /// The set that holds ASCII alone.
    pub fn ascii() -> (r: Self)
        ensures
            r.0 == ERLANG_ASCII,
    {
        erlang_char_encoding(ERLANG_ASCII)
    }

    /// The set that holds Latin-1 alone.
    pub fn latin1() -> (r: Self)
        ensures
            r.0 == ERLANG_LATIN1,
    {
        erlang_char_encoding(ERLANG_LATIN1)
    }

    /// The set that holds UTF-8 alone.
    pub fn utf8() -> (r: Self)
        ensures
            r.0 == ERLANG_UTF8,
    {
        erlang_char_encoding(ERLANG_UTF8)
    }

    /// Whether every encoding of `other` is in this set.
    pub fn contains(self, other: Self) -> (r: bool)
        ensures
            r == (self.0 & other.0 == other.0),
    {
        self.0 & other.0 == other.0
    }
}

/// The union of two sets of encodings.
impl core::ops::BitOr for erlang_char_encoding {
    type Output = Self;

    fn bitor(self, other: Self) -> (r: Self) {
        erlang_char_encoding(self.0 | other.0)
    }
}

impl vstd::std_specs::ops::BitOrSpecImpl for erlang_char_encoding {
    open spec fn obeys_bitor_spec() -> bool {
        true
    }

    open spec fn bitor_req(self, other: Self) -> bool {
        true
    }

    open spec fn bitor_spec(self, other: Self) -> Self {
        erlang_char_encoding(self.0 | other.0)
    }
}

/// Adds the encodings of the right-hand side to the set.
impl core::ops::BitOrAssign for erlang_char_encoding {
    fn bitor_assign(&mut self, rhs: erlang_char_encoding)
        ensures
            final(self).0 == old(self).0 | rhs.0,
    {
        self.0 = self.0 | rhs.0;
    }
}

/// The intersection of two sets of encodings.
impl core::ops::BitAnd for erlang_char_encoding {
    type Output = Self;

    fn bitand(self, other: Self) -> (r: Self) {
        erlang_char_encoding(self.0 & other.0)
    }
}

impl vstd::std_specs::ops::BitAndSpecImpl for erlang_char_encoding {
    open spec fn obeys_bitand_spec() -> bool {
        true
    }

    open spec fn bitand_req(self, other: Self) -> bool {
        true
    }

    open spec fn bitand_spec(self, other: Self) -> Self {
        erlang_char_encoding(self.0 & other.0)
    }
}

/// Keeps only the encodings that are also in the right-hand side.
impl core::ops::BitAndAssign for erlang_char_encoding {
    fn bitand_assign(&mut self, rhs: erlang_char_encoding)
        ensures
            final(self).0 == old(self).0 & rhs.0,
    {
        self.0 = self.0 & rhs.0;
    }
}

} // verus!
