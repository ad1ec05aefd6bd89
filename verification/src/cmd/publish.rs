//! PUBLISH channel message: fan a message out to the channel's
//! subscribers.

use vstd::prelude::*;
use crate::db::{Db, spec_deliver};
use crate::frame::{Frame, FrameV, frame_view};
use crate::parse::{Parse, ParseError, bytes_of, bytes_args_err};

verus! {

pub struct Publish {
    channel: Vec<u8>,
    message: Vec<u8>,
}

impl Publish {
    pub closed spec fn spec_channel(self) -> Seq<u8> {
        self.channel@
    }

    pub closed spec fn spec_message(self) -> Seq<u8> {
        self.message@
    }

    pub fn new(channel: Vec<u8>, message: Vec<u8>) -> (r: Self)
        ensures
            r.spec_channel() == channel@,
            r.spec_message() == message@,
    {
        Self { channel, message }
    }

    pub fn parse_frames(parse: &mut Parse) -> (r: Result<Publish, ParseError>)
        ensures
            match r {
                Ok(p) => old(parse).rest().len() >= 2 && bytes_of(old(parse).rest()[0]) == Some(p.spec_channel()) && bytes_of(old(parse).rest()[1]) == Some(p.spec_message()) && final(parse).rest() == old(parse).rest().skip(2),
                Err(e) => (old(parse).rest().len() < 2 || bytes_of(old(parse).rest()[0]) is None
                    || bytes_of(old(parse).rest()[1]) is None) && bytes_args_err(
                    old(parse).rest(),
                    2,
                ) == Some(e),
            },
    {
        let ghost r0 = parse.rest();
        let channel = match parse.next_string() {
            Ok(c) => c,
            Err(e) => {
                return Err(e);
            },
        };
        let message = match parse.next_bytes() {
            Ok(m) => m,
            Err(e) => {
                proof {
                    assert(bytes_args_err(r0, 2) == bytes_args_err(r0.drop_first(), 1));
                    if r0.len() >= 2 {
                        assert(r0.drop_first()[0] == r0[1]);
                    }
                }
                return Err(e);
            },
        };
        proof {
            assert(parse.rest() =~= r0.skip(2));
        }
        Ok(Publish { channel, message })
    }

    /// Applies the fan-out; the reply is the count of subscribers the
    /// message went to, as an integer frame.
    pub fn apply(self, db: &mut Db) -> (r: Frame)
        requires
            old(db).wf(),
        ensures
            final(db).wf(),
            final(db).store() == old(db).store(),
            ({
                let c = old(db).chans();
                let ch = self.spec_channel();
                if c.contains_key(ch) {
                    final(db).chans() == c.insert(ch, spec_deliver(c[ch], self.spec_message()))
                        && frame_view(r) == FrameV::Integer(c[ch].len() as u64)
                } else {
                    final(db).chans() == c && frame_view(r) == FrameV::Integer(0)
                }
            }),
    {
        let n = db.publish(&self.channel, &self.message);
        Frame::Integer(n as u64)
    }
}

} // verus!
