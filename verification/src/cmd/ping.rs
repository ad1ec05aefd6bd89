//! PING [message]: liveness check; echoes its argument.

use vstd::prelude::*;
use crate::frame::{Frame, FrameV, frame_view};
use crate::parse::{Parse, ParseError, bytes_of};

verus! {

pub struct Ping {
    msg: Option<Vec<u8>>,
}

impl Ping {
    pub closed spec fn spec_msg(self) -> Option<Seq<u8>> {
        match self.msg {
            Some(m) => Some(m@),
            None => None,
        }
    }

    pub fn new(msg: Option<Vec<u8>>) -> (r: Self)
        ensures
            r.spec_msg() == match msg {
                Some(m) => Some(m@),
                None => None::<Seq<u8>>,
            },
    {
        Self { msg }
    }

    /// Extracts the optional message.
    pub fn parse_frames(parse: &mut Parse) -> (r: Result<Ping, ParseError>)
        ensures
            match r {
                Ok(p) => match p.spec_msg() {
                    None => old(parse).rest().len() == 0 && final(parse).rest() == old(
                        parse,
                    ).rest(),
                    Some(m) => old(parse).rest().len() >= 1 && bytes_of(old(parse).rest()[0])
                        == Some(m) && final(parse).rest() == old(parse).rest().skip(1),
                },
                Err(e) => old(parse).rest().len() >= 1 && bytes_of(old(parse).rest()[0]) is None
                    && e == ParseError::WrongType,
            },
    {
        if parse.remaining() == 0 {
            return Ok(Ping { msg: None });
        }
        let ghost r0 = parse.rest();
        let m = match parse.next_bytes() {
            Ok(m) => m,
            Err(e) => {
                return Err(e);
            },
        };
        proof {
            assert(parse.rest() =~= r0.skip(1));
        }
        Ok(Ping { msg: Some(m) })
    }

    /// The reply: the simple string `PONG` without a message, the
    /// message itself as a bulk frame with one.
    pub fn apply(self) -> (r: Frame)
        ensures
            frame_view(r) == match self.spec_msg() {
                None => FrameV::Simple(seq![80u8, 79u8, 78u8, 71u8]),
                Some(m) => FrameV::Bulk(m),
            },
    {
        match self.msg {
            Some(m) => Frame::Bulk(m),
            None => {
                let mut pong: Vec<u8> = Vec::new();
                pong.push(80);
                pong.push(79);
                pong.push(78);
                pong.push(71);
                proof {
                    assert(pong@ =~= seq![80u8, 79u8, 78u8, 71u8]);
                }
                Frame::Simple(pong)
            },
        }
    }
}

} // verus!
