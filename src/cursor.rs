use vstd::prelude::*;
use vstd::slice::slice_subrange;
use vstd::utf8::{decode_utf8, encode_utf8, encode_utf8_decode_utf8, is_scalar, valid_utf8};

use crate::error::Error;
use crate::grammar::{
    find, le, lemma_le_bound, lemma_radix_mono, lemma_radix_values, valid_width,
};
use crate::wire::{char_code, radix, twos, BYTE_DELIMITER, STRING_DELIMITER};

verus! {

/// Relies on `char::from_u32`: `Some` exactly for a Unicode scalar value,
/// holding the character with that code.
#[verifier::external_body]
fn char_of(n: u32) -> (r: Option<char>)
    ensures
        r is Some <==> is_scalar(n),
        r is Some ==> r->0 as u32 == n,
{
    char::from_u32(n)
}

/// Relies on `String::from_utf8`: it succeeds exactly on well-formed UTF-8,
/// and the string then holds those very bytes.
#[verifier::external_body]
fn string_of(b: Vec<u8>) -> (r: Option<String>)
    ensures
        r is Some <==> valid_utf8(b@),
        r is Some ==> encode_utf8(r->0@) == b@,
{
    String::from_utf8(b).ok()
}

/// A read-only cursor over an input buffer.
pub struct CustomDeserializer<'de> {
    data: &'de [u8],
    pos: usize,
}

impl<'de> CustomDeserializer<'de> {
    /// The bytes not read yet.
    pub closed spec fn rest(&self) -> Seq<u8> {
        self.data@.skip(self.pos as int)
    }

    pub closed spec fn wf(&self) -> bool {
        self.pos <= self.data@.len()
    }

    pub fn new(data: &'de [u8]) -> (r: Self)
        ensures
            r.wf(),
            r.rest() == data@,
    {
        let r = CustomDeserializer { data, pos: 0 };
        assert(r.rest() =~= data@);
        r
    }

    /// How many bytes are left.
    pub fn remaining(&self) -> (r: usize)
        requires
            self.wf(),
        ensures
            r == self.rest().len(),
    {
        self.data.len() - self.pos
    }

    /// The next byte, without consuming it.
    pub fn peek_byte(&self) -> (r: Result<u8, Error>)
        requires
            self.wf(),
        ensures
            self.rest().len() == 0 ==> r == Err::<u8, Error>(Error::EndOfInput),
            self.rest().len() > 0 ==> r == Ok::<u8, Error>(self.rest()[0]),
    {
        if self.pos < self.data.len() {
            Ok(self.data[self.pos])
        } else {
            Err(Error::EndOfInput)
        }
    }

    /// The next byte, consumed.
    pub fn eat_byte(&mut self) -> (r: Result<u8, Error>)
        requires
            old(self).wf(),
        ensures
            final(self).wf(),
            old(self).rest().len() == 0 ==> r == Err::<u8, Error>(Error::EndOfInput),
            old(self).rest().len() > 0 ==> r == Ok::<u8, Error>(old(self).rest()[0]),
            final(self).rest() == if r is Ok {
                old(self).rest().drop_first()
            } else {
                old(self).rest()
            },
    {
        if self.pos >= self.data.len() {
            return Err(Error::EndOfInput);
        }
        let b = self.data[self.pos];
        self.pos = self.pos + 1;
        assert(self.rest() =~= old(self).rest().drop_first());
        Ok(b)
    }

    /// The next `n` bytes, consumed; nothing is consumed when fewer remain.
    pub fn eat_bytes(&mut self, n: usize) -> (r: Result<&'de [u8], Error>)
        requires
            old(self).wf(),
        ensures
            final(self).wf(),
            old(self).rest().len() < n ==> r is Err && r->Err_0 == Error::EndOfInput,
            old(self).rest().len() >= n ==> r is Ok && r->Ok_0@ == old(self).rest().take(n as int),
            final(self).rest() == if r is Ok {
                old(self).rest().skip(n as int)
            } else {
                old(self).rest()
            },
    {
        if n > self.data.len() - self.pos {
            return Err(Error::EndOfInput);
        }
        let b = slice_subrange(self.data, self.pos, self.pos + n);
        self.pos = self.pos + n;
        assert(b@ =~= old(self).rest().take(n as int));
        assert(self.rest() =~= old(self).rest().skip(n as int));
        Ok(b)
    }

    /// One byte read as a boolean: any nonzero byte is `true`.
    pub fn parse_bool(&mut self) -> (r: Result<bool, Error>)
        requires
            old(self).wf(),
        ensures
            final(self).wf(),
            old(self).rest().len() == 0 ==> r == Err::<bool, Error>(Error::EndOfInput),
            old(self).rest().len() > 0 ==> r == Ok::<bool, Error>(old(self).rest()[0] != 0),
            final(self).rest() == if r is Ok {
                old(self).rest().drop_first()
            } else {
                old(self).rest()
            },
    {
        Ok(self.eat_byte()? != 0)
    }

    /// A little-endian unsigned integer of `width` bytes (1, 2, 4 or 8).
    pub fn parse_unsigned(&mut self, width: usize) -> (r: Result<u64, Error>)
        requires
            old(self).wf(),
        ensures
            final(self).wf(),
            old(self).rest().len() < width ==> r == Err::<u64, Error>(Error::EndOfInput),
            old(self).rest().len() >= width && !valid_width(width as nat) ==> r == Err::<u64, Error>(
                Error::InvalidTypeSize,
            ),
            old(self).rest().len() >= width && valid_width(width as nat) ==> r is Ok && r->Ok_0 as nat
                == le(old(self).rest().take(width as int)),
            final(self).rest() == if r is Ok {
                old(self).rest().skip(width as int)
            } else {
                old(self).rest()
            },
    {
        if self.data.len() - self.pos < width {
            return Err(Error::EndOfInput);
        }
        if !(width == 1 || width == 2 || width == 4 || width == 8) {
            return Err(Error::InvalidTypeSize);
        }
        let ghost s = old(self).rest().take(width as int);
        let mut acc: u64 = 0;
        let mut j: usize = width;
        proof {
            lemma_radix_values();
            assert(s.subrange(width as int, width as int) =~= Seq::<u8>::empty());
        }
        while j > 0
            invariant
                self.wf(),
                *self == *old(self),
                s == self.rest().take(width as int),
                self.pos + width <= self.data.len(),
                width <= 8,
                j <= width,
                acc as nat == le(s.subrange(j as int, width as int)),
                acc < radix((width - j) as nat),
            decreases j,
        {
            proof {
                assert(s.subrange(j - 1, width as int).drop_first() =~= s.subrange(
                    j as int,
                    width as int,
                ));
                lemma_radix_mono((width - j + 1) as nat, 8);
                lemma_radix_values();
            }
            acc = acc * 256 + self.data[self.pos + j - 1] as u64;
            j = j - 1;
        }
        assert(s.subrange(0, width as int) =~= s);
        self.pos = self.pos + width;
        assert(self.rest() =~= old(self).rest().skip(width as int));
        Ok(acc)
    }

    /// A little-endian two's complement integer of `width` bytes (1, 2, 4 or
    /// 8), sign-extended.
    pub fn parse_signed(&mut self, width: usize) -> (r: Result<i64, Error>)
        requires
            old(self).wf(),
        ensures
            final(self).wf(),
            old(self).rest().len() < width ==> r == Err::<i64, Error>(Error::EndOfInput),
            old(self).rest().len() >= width && !valid_width(width as nat) ==> r == Err::<i64, Error>(
                Error::InvalidTypeSize,
            ),
            old(self).rest().len() >= width && valid_width(width as nat) ==> r is Ok && twos(
                r->Ok_0 as int,
                width as nat,
            ) == le(old(self).rest().take(width as int)) && -radix(width as nat) <= 2 * r->Ok_0
                < radix(width as nat),
            final(self).rest() == if r is Ok {
                old(self).rest().skip(width as int)
            } else {
                old(self).rest()
            },
    {
        let u = self.parse_unsigned(width)?;
        proof {
            lemma_radix_values();
            lemma_le_bound(old(self).rest().take(width as int));
        }
        let full: u128 = if width == 1 {
            0x100
        } else if width == 2 {
            0x1_0000
        } else if width == 4 {
            0x1_0000_0000
        } else {
            0x1_0000_0000_0000_0000
        };
        if 2 * (u as u128) >= full {
            Ok(((u as i128) - (full as i128)) as i64)
        } else {
            Ok(u as i64)
        }
    }

    /// The bit pattern of a little-endian `f32` (`f32::from_bits` gives the
    /// number).
    pub fn parse_f32(&mut self) -> (r: Result<u32, Error>)
        requires
            old(self).wf(),
        ensures
            final(self).wf(),
            old(self).rest().len() < 4 ==> r == Err::<u32, Error>(Error::EndOfInput),
            old(self).rest().len() >= 4 ==> r is Ok && r->Ok_0 as nat == le(old(self).rest().take(4)),
            final(self).rest() == if r is Ok {
                old(self).rest().skip(4)
            } else {
                old(self).rest()
            },
    {
        let x = self.parse_unsigned(4)?;
        proof {
            lemma_radix_values();
            lemma_le_bound(old(self).rest().take(4));
        }
        Ok(x as u32)
    }

    /// The bit pattern of a little-endian `f64` (`f64::from_bits` gives the
    /// number).
    pub fn parse_f64(&mut self) -> (r: Result<u64, Error>)
        requires
            old(self).wf(),
        ensures
            final(self).wf(),
            old(self).rest().len() < 8 ==> r == Err::<u64, Error>(Error::EndOfInput),
            old(self).rest().len() >= 8 ==> r is Ok && r->Ok_0 as nat == le(old(self).rest().take(8)),
            final(self).rest() == if r is Ok {
                old(self).rest().skip(8)
            } else {
                old(self).rest()
            },
    {
        self.parse_unsigned(8)
    }

    /// A character: its code as a 4-byte unsigned integer.
    pub fn parse_char(&mut self) -> (r: Result<char, Error>)
        requires
            old(self).wf(),
        ensures
            final(self).wf(),
            old(self).rest().len() < 4 ==> r == Err::<char, Error>(Error::EndOfInput),
            old(self).rest().len() >= 4 ==> {
                let n = le(old(self).rest().take(4));
                &&& is_scalar(n as u32) ==> r is Ok && char_code(r->Ok_0) == n
                &&& !is_scalar(n as u32) ==> r == Err::<char, Error>(Error::InvalidCodePoint)
            },
            final(self).rest() == if old(self).rest().len() >= 4 {
                old(self).rest().skip(4)
            } else {
                old(self).rest()
            },
    {
        let n = self.parse_unsigned(4)?;
        proof {
            lemma_radix_values();
            lemma_le_bound(old(self).rest().take(4));
        }
        match char_of(n as u32) {
            Some(c) => Ok(c),
            None => Err(Error::InvalidCodePoint),
        }
    }

    /// Moves bytes into `bytes` up to the next `d`, which is consumed and not
    /// kept. Returns whether a `d` was found.
    fn scan_until(&mut self, d: u8, bytes: &mut Vec<u8>) -> (found: bool)
        requires
            old(self).wf(),
        ensures
            final(self).wf(),
            found <==> find(old(self).rest(), d) is Some,
            found ==> final(bytes)@ == old(bytes)@ + old(self).rest().take(
                find(old(self).rest(), d)->0 as int,
            ),
            found ==> final(self).rest() == old(self).rest().skip(
                (find(old(self).rest(), d)->0 + 1) as int,
            ),
    {
        let ghost s0 = old(self).rest();
        let ghost b0 = old(bytes)@;
        let ghost start = self.pos;
        loop
            invariant
                self.wf(),
                self.data == old(self).data,
                s0 == old(self).rest(),
                b0 == old(bytes)@,
                start == old(self).pos,
                start <= self.pos,
                s0 == self.data@.skip(start as int),
                bytes@ == b0 + s0.take(self.pos - start),
                find(s0, d) == match find(self.rest(), d) {
                    None => None,
                    Some(j) => Some((j + (self.pos - start)) as nat),
                },
            decreases self.data@.len() - self.pos,
        {
            if self.pos >= self.data.len() {
                assert(self.rest().len() == 0);
                return false;
            }
            let b = self.data[self.pos];
            proof {
                assert(self.rest()[0] == b);
                assert(self.rest().drop_first() =~= self.data@.skip(self.pos + 1));
            }
            if b == d {
                assert(find(self.rest(), d) == Some(0nat));
                self.pos = self.pos + 1;
                assert(self.rest() =~= s0.skip((find(s0, d)->0 + 1) as int));
                return true;
            }
            bytes.push(b);
            self.pos = self.pos + 1;
            assert(bytes@ =~= b0 + s0.take(self.pos - start));
        }
    }

    /// The payload of a string, whose opening delimiter has been read: the
    /// bytes up to the closing delimiter (consumed), moved into `bytes` and
    /// read as UTF-8.
    pub fn parse_str(&mut self, bytes: &mut Vec<u8>) -> (r: Result<String, Error>)
        requires
            old(self).wf(),
        ensures
            final(self).wf(),
            match find(old(self).rest(), STRING_DELIMITER) {
                None => r == Err::<String, Error>(Error::EndOfInput),
                Some(j) => {
                    &&& final(bytes)@ == old(bytes)@ + old(self).rest().take(j as int)
                    &&& final(self).rest() == old(self).rest().skip((j + 1) as int)
                    &&& valid_utf8(final(bytes)@) ==> r is Ok && r->Ok_0@ == decode_utf8(
                        final(bytes)@,
                    )
                    &&& !valid_utf8(final(bytes)@) ==> r is Err && r->Err_0 == Error::ConversionError
                },
            },
    {
        if !self.scan_until(STRING_DELIMITER, bytes) {
            return Err(Error::EndOfInput);
        }
        match string_of(bytes.clone()) {
            Some(s) => {
                proof {
                    encode_utf8_decode_utf8(s@);
                }
                Ok(s)
            },
            None => Err(Error::ConversionError),
        }
    }

    /// The payload of a byte buffer, whose opening delimiter has been read:
    /// the bytes up to the closing delimiter (consumed), moved into `bytes`.
    pub fn parse_bytes(&mut self, bytes: &mut Vec<u8>) -> (r: Result<(), Error>)
        requires
            old(self).wf(),
        ensures
            final(self).wf(),
            match find(old(self).rest(), BYTE_DELIMITER) {
                None => r == Err::<(), Error>(Error::EndOfInput),
                Some(j) => {
                    &&& r is Ok
                    &&& final(bytes)@ == old(bytes)@ + old(self).rest().take(j as int)
                    &&& final(self).rest() == old(self).rest().skip((j + 1) as int)
                },
            },
    {
        if !self.scan_until(BYTE_DELIMITER, bytes) {
            return Err(Error::EndOfInput);
        }
        Ok(())
    }
}

} // verus!
