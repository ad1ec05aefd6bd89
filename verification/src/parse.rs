//! The command parser: typed extraction of arguments from a decoded
//! array frame, one element at a time, with an explicit exhaustion
//! check so every command can validate its own arity.

use vstd::prelude::*;
use crate::frame::{Frame, FrameV, frames_view, frame_view};
use crate::util::parse_dec;

verus! {

/// Why an argument could not be had.
#[derive(PartialEq, Eq, Structural, Clone, Copy, Debug)]
pub enum ParseError {
    /// No elements remain.
    EndOfStream,
    /// The next element has the wrong shape for what was asked.
    WrongType,
    /// The command was not carried as an array frame.
    NotArray,
    /// Elements remain after the last expected argument.
    Trailing,
}

/// The byte payload an argument position carries, for string- and
/// byte-shaped extraction: simple and bulk frames qualify.
pub open spec fn bytes_of(v: FrameV) -> Option<Seq<u8>> {
    match v {
        FrameV::Simple(s) => Some(s),
        FrameV::Bulk(b) => Some(b),
        _ => None,
    }
}

/// The integer an argument position carries: an integer frame, or a
/// decimal digit string in a simple or bulk frame.
pub open spec fn int_of(v: FrameV) -> Option<u64> {
    match v {
        FrameV::Integer(n) => Some(n),
        FrameV::Simple(s) => parse_dec(s),
        FrameV::Bulk(b) => parse_dec(b),
        _ => None,
    }
}

/// The error that extracting `k` byte-shaped arguments in a row
/// yields, if any: a missing argument is the end-of-stream condition,
/// a mis-shaped one the wrong-type error, whichever comes first.
pub open spec fn bytes_args_err(rest: Seq<FrameV>, k: nat) -> Option<ParseError>
    decreases k,
{
    if k == 0 {
        None
    } else if rest.len() == 0 {
        Some(ParseError::EndOfStream)
    } else if bytes_of(rest[0]) is None {
        Some(ParseError::WrongType)
    } else {
        bytes_args_err(rest.drop_first(), (k - 1) as nat)
    }
}

/// Cursor over the elements of one command array.
pub struct Parse {
    parts: Vec<Frame>,
}

impl Parse {
    /// The arguments not yet consumed, in order.
    pub closed spec fn rest(self) -> Seq<FrameV> {
        frames_view(self.parts@)
    }

    /// Starts parsing a decoded frame; only an array can carry a
    /// command.
    pub fn new(frame: Frame) -> (r: Result<Parse, ParseError>)
        ensures
            match r {
                Ok(p) => frame_view(frame) is Array && p.rest() == frame_view(frame)->Array_0,
                Err(e) => !(frame_view(frame) is Array) && e == ParseError::NotArray,
            },
    {
        match frame {
            Frame::Array(items) => {
                let p = Parse { parts: items };
                proof {
                    assert(p.rest() =~= frame_view(Frame::Array(p.parts))->Array_0);
                }
                Ok(p)
            },
            _ => Err(ParseError::NotArray),
        }
    }

    /// Takes the next element whole.
    pub fn next(&mut self) -> (r: Result<Frame, ParseError>)
        ensures
            match r {
                Ok(f) => old(self).rest().len() > 0 && frame_view(f) == old(self).rest()[0]
                    && final(self).rest() == old(self).rest().drop_first(),
                Err(e) => old(self).rest().len() == 0 && e == ParseError::EndOfStream
                    && final(self).rest() == old(self).rest(),
            },
    {
        if self.parts.len() == 0 {
            return Err(ParseError::EndOfStream);
        }
        let ghost pre = self.parts@;
        let f = self.parts.remove(0);
        proof {
            assert(self.rest() =~= frames_view(pre).drop_first());
        }
        Ok(f)
    }

    /// Takes the next element as a byte string; simple and bulk frames
    /// qualify, anything else is a shape error.
    pub fn next_bytes(&mut self) -> (r: Result<Vec<u8>, ParseError>)
        ensures
            match r {
                Ok(b) => old(self).rest().len() > 0 && bytes_of(old(self).rest()[0]) == Some(b@)
                    && final(self).rest() == old(self).rest().drop_first(),
                Err(e) => final(self).rest() == old(self).rest().skip(
                    if old(self).rest().len() > 0 {
                        1int
                    } else {
                        0int
                    },
                ) && if old(self).rest().len() == 0 {
                    e == ParseError::EndOfStream
                } else {
                    bytes_of(old(self).rest()[0]) is None && e == ParseError::WrongType
                },
            },
    {
        proof {
            assert(old(self).rest().skip(0) =~= old(self).rest());
        }
        match self.next() {
            Err(e) => Err(e),
            Ok(f) => match f {
                Frame::Simple(s) => Ok(s),
                Frame::Bulk(b) => Ok(b),
                _ => Err(ParseError::WrongType),
            },
        }
    }

    /// Takes the next element as a byte string naming a key, field or
    /// channel.
    pub fn next_string(&mut self) -> (r: Result<Vec<u8>, ParseError>)
        ensures
            match r {
                Ok(b) => old(self).rest().len() > 0 && bytes_of(old(self).rest()[0]) == Some(b@)
                    && final(self).rest() == old(self).rest().drop_first(),
                Err(e) => final(self).rest() == old(self).rest().skip(
                    if old(self).rest().len() > 0 {
                        1int
                    } else {
                        0int
                    },
                ) && if old(self).rest().len() == 0 {
                    e == ParseError::EndOfStream
                } else {
                    bytes_of(old(self).rest()[0]) is None && e == ParseError::WrongType
                },
            },
    {
        self.next_bytes()
    }

    /// Takes the next element as an integer.
    pub fn next_int(&mut self) -> (r: Result<u64, ParseError>)
        ensures
            match r {
                Ok(n) => old(self).rest().len() > 0 && int_of(old(self).rest()[0]) == Some(n)
                    && final(self).rest() == old(self).rest().drop_first(),
                Err(e) => final(self).rest() == old(self).rest().skip(
                    if old(self).rest().len() > 0 {
                        1int
                    } else {
                        0int
                    },
                ) && if old(self).rest().len() == 0 {
                    e == ParseError::EndOfStream
                } else {
                    int_of(old(self).rest()[0]) is None && e == ParseError::WrongType
                },
            },
    {
        proof {
            assert(old(self).rest().skip(0) =~= old(self).rest());
        }
        match self.next() {
            Err(e) => Err(e),
            Ok(f) => match f {
                Frame::Integer(n) => Ok(n),
                Frame::Simple(s) => match crate::util::parse_decimal(&s, 0, s.len()) {
                    Some(n) => {
                        proof {
                            assert(s@.subrange(0, s@.len() as int) =~= s@);
                        }
                        Ok(n)
                    },
                    None => {
                        proof {
                            assert(s@.subrange(0, s@.len() as int) =~= s@);
                        }
                        Err(ParseError::WrongType)
                    },
                },
                Frame::Bulk(b) => match crate::util::parse_decimal(&b, 0, b.len()) {
                    Some(n) => {
                        proof {
                            assert(b@.subrange(0, b@.len() as int) =~= b@);
                        }
                        Ok(n)
                    },
                    None => {
                        proof {
                            assert(b@.subrange(0, b@.len() as int) =~= b@);
                        }
                        Err(ParseError::WrongType)
                    },
                },
                _ => Err(ParseError::WrongType),
            },
        }
    }

    /// How many arguments remain.
    pub fn remaining(&self) -> (n: usize)
        ensures
            n == self.rest().len(),
    {
        self.parts.len()
    }

    /// Asserts exhaustion: trailing arguments are an arity error.
    pub fn finish(&self) -> (r: Result<(), ParseError>)
        ensures
            match r {
                Ok(_) => self.rest().len() == 0,
                Err(e) => self.rest().len() > 0 && e == ParseError::Trailing,
            },
    {
        if self.parts.len() == 0 {
            Ok(())
        } else {
            Err(ParseError::Trailing)
        }
    }
}

} // verus!
