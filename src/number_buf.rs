use vstd::prelude::*;

use crate::buffer::{AsBytes, Buffer};
use crate::error::InvalidNumber;
use crate::grammar::is_number;
use crate::integer::{decimal_bytes, decimal_text, lemma_decimal_text};
use crate::number::Number;

verus! {

/// JSON number buffer: owned bytes that match the JSON number grammar.
#[derive(PartialEq, Eq, PartialOrd, Ord, Hash, Debug)]
pub struct NumberBuf<B: AsBytes = Vec<u8>> {
    data: B,
}

impl<B: AsBytes> View for NumberBuf<B> {
    type V = Seq<u8>;

    closed spec fn view(&self) -> Seq<u8> {
        self.data.bytes_view()
    }
}

impl<B: Buffer> Clone for NumberBuf<B> {
    /// A copy of the bytes, in new storage.
    fn clone(&self) -> (r: Self)
        ensures
            r@ == self@,
    {
        proof {
            use_type_invariant(self);
        }
        NumberBuf { data: B::from_bytes(self.data.as_bytes()) }
    }
}

impl<B: AsBytes> NumberBuf<B> {
    #[verifier::type_invariant]
    spec fn wf(self) -> bool {
        is_number(self.data.bytes_view())
    }

    /// The storage that holds the bytes.
    pub closed spec fn storage(&self) -> B {
        self.data
    }

    /// Creates a new number buffer by validating the given input `data`.
    ///
    /// On failure the input is handed back unchanged.
    pub fn new(data: B) -> (r: Result<Self, InvalidNumber<B>>)
        ensures
            match r {
                Ok(n) => is_number(data.bytes_view()) && n.storage() == data && n@
                    == data.bytes_view(),
                Err(e) => !is_number(data.bytes_view()) && e.0 == data,
            },
    {
        let valid = Number::new(data.as_bytes()).is_ok();
        if valid {
            Ok(NumberBuf { data })
        } else {
            Err(InvalidNumber(data))
        }
    }

    /// Creates a new number buffer from storage that the caller proves to
    /// hold a JSON number.
    pub fn new_unchecked(data: B) -> (r: Self)
        requires
            is_number(data.bytes_view()),
        ensures
            r.storage() == data,
            r@ == data.bytes_view(),
    {
        NumberBuf { data }
    }

    pub fn buffer(&self) -> (r: &B)
        ensures
            *r == self.storage(),
            r.bytes_view() == self@,
    {
        &self.data
    }

    pub fn into_buffer(self) -> (r: B)
        ensures
            r == self.storage(),
            r.bytes_view() == self@,
            is_number(r.bytes_view()),
    {
        proof {
            use_type_invariant(&self);
        }
        self.data
    }

    /// The number, borrowed from this buffer.
    pub fn as_number(&self) -> (r: Number<'_>)
        ensures
            r@ == self@,
    {
        proof {
            use_type_invariant(self);
        }
        Number::new_unchecked(self.data.as_bytes())
    }
}

impl<B: Buffer> NumberBuf<B> {
    /// Creates a number buffer holding a copy of `n`.
    pub fn from_number(n: Number<'_>) -> (r: Self)
        ensures
            r@ == n@,
    {
        NumberBuf { data: B::from_bytes(n.as_bytes()) }
    }

    /// `n` written in decimal.
    fn from_integer(n: i128) -> (r: Self)
        ensures
            r@ == decimal_text(n as int),
    {
        proof {
            lemma_decimal_text(n as int);
        }
        NumberBuf { data: B::from_vec(decimal_bytes(n)) }
    }

    /// `n` written in decimal.
    pub fn from_u8(n: u8) -> (r: Self)
        ensures
            r@ == decimal_text(n as int),
    {
        Self::from_integer(n as i128)
    }

    /// `n` written in decimal.
    pub fn from_i8(n: i8) -> (r: Self)
        ensures
            r@ == decimal_text(n as int),
    {
        Self::from_integer(n as i128)
    }

    /// `n` written in decimal.
    pub fn from_u16(n: u16) -> (r: Self)
        ensures
            r@ == decimal_text(n as int),
    {
        Self::from_integer(n as i128)
    }

    /// `n` written in decimal.
    pub fn from_i16(n: i16) -> (r: Self)
        ensures
            r@ == decimal_text(n as int),
    {
        Self::from_integer(n as i128)
    }

    /// `n` written in decimal.
    pub fn from_u32(n: u32) -> (r: Self)
        ensures
            r@ == decimal_text(n as int),
    {
        Self::from_integer(n as i128)
    }

    /// `n` written in decimal.
    pub fn from_i32(n: i32) -> (r: Self)
        ensures
            r@ == decimal_text(n as int),
    {
        Self::from_integer(n as i128)
    }

    /// `n` written in decimal.
    pub fn from_u64(n: u64) -> (r: Self)
        ensures
            r@ == decimal_text(n as int),
    {
        Self::from_integer(n as i128)
    }

    /// `n` written in decimal.
    pub fn from_i64(n: i64) -> (r: Self)
        ensures
            r@ == decimal_text(n as int),
    {
        Self::from_integer(n as i128)
    }

    /// `n` written in decimal.
    pub fn from_usize(n: usize) -> (r: Self)
        ensures
            r@ == decimal_text(n as int),
    {
        Self::from_integer(n as i128)
    }

    /// `n` written in decimal.
    pub fn from_isize(n: isize) -> (r: Self)
        ensures
            r@ == decimal_text(n as int),
    {
        Self::from_integer(n as i128)
    }
}

impl<B: Buffer> std::str::FromStr for NumberBuf<B> {
    type Err = InvalidNumber<B>;

    /// Validates a copy of the text `s`.
    fn from_str(s: &str) -> Result<Self, InvalidNumber<B>> {
        Self::new(B::from_bytes(s.as_bytes()))
    }
}

impl NumberBuf<String> {
    pub fn into_string(self) -> (r: String)
        ensures
            r == self.storage(),
    {
        self.data
    }

    pub fn into_bytes(self) -> (r: Vec<u8>)
        ensures
            r@ == self@,
    {
        self.data.as_str().as_bytes_vec()
    }
}

impl<'a> Number<'a> {
    /// A copy of the number in a buffer of its own.
    pub fn to_owned(&self) -> (r: NumberBuf)
        ensures
            r@ == self@,
    {
        NumberBuf::from_number(*self)
    }
}

/// A number that is either borrowed or owned.
pub enum CowNumber<'a, B: AsBytes = Vec<u8>> {
    Borrowed(Number<'a>),
    Owned(NumberBuf<B>),
}

impl<'a, B: AsBytes> View for CowNumber<'a, B> {
    type V = Seq<u8>;

    open spec fn view(&self) -> Seq<u8> {
        match self {
            CowNumber::Borrowed(n) => n@,
            CowNumber::Owned(n) => n@,
        }
    }
}

impl<'a, B: AsBytes> CowNumber<'a, B> {
    /// The number, borrowed.
    pub fn as_number(&self) -> (r: Number<'_>)
        ensures
            r@ == self@,
    {
        match self {
            CowNumber::Borrowed(n) => *n,
            CowNumber::Owned(n) => n.as_number(),
        }
    }
}

impl<'a, B: Buffer> CowNumber<'a, B> {
    /// The number, owned: a borrowed number is copied.
    pub fn into_owned(self) -> (r: NumberBuf<B>)
        ensures
            r@ == self@,
    {
        match self {
            CowNumber::Borrowed(n) => NumberBuf::from_number(n),
            CowNumber::Owned(n) => n,
        }
    }
}

} // verus!
