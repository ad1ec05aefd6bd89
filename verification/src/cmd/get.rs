//! GET key: read a scalar.

use vstd::prelude::*;
use crate::db::{Db, spec_get_result, spec_read_after};
use crate::frame::{Frame, FrameV, frame_view};
use crate::parse::{Parse, ParseError, bytes_of, bytes_args_err};

verus! {

pub struct Get {
    key: Vec<u8>,
}

impl Get {
    pub closed spec fn spec_key(self) -> Seq<u8> {
        self.key@
    }

    pub fn new(key: Vec<u8>) -> (r: Self)
        ensures
            r.spec_key() == key@,
    {
        Self { key }
    }

    pub fn key(&self) -> (r: &Vec<u8>)
        ensures
            r@ == self.spec_key(),
    {
        &self.key
    }

    pub fn parse_frames(parse: &mut Parse) -> (r: Result<Get, ParseError>)
        ensures
            match r {
                Ok(g) => old(parse).rest().len() >= 1 && bytes_of(old(parse).rest()[0]) == Some(g.spec_key()) && final(parse).rest() == old(parse).rest().skip(1),
                Err(e) => (old(parse).rest().len() < 1 || bytes_of(old(parse).rest()[0]) is None)
                    && bytes_args_err(old(parse).rest(), 1) == Some(e),
            },
    {
        let ghost r0 = parse.rest();
        let key = match parse.next_string() {
            Ok(k) => k,
            Err(e) => {
                return Err(e);
            },
        };
        proof {
            assert(parse.rest() =~= r0.skip(1));
        }
        Ok(Get { key })
    }

    /// Applies the read: the scalar as a bulk frame, or the null frame
    /// when the key is absent, expired, or holds a field map.
    pub fn apply(self, db: &mut Db, now: u64) -> (r: Frame)
        requires
            old(db).wf(),
        ensures
            final(db).wf(),
            final(db).chans() == old(db).chans(),
            final(db).store() == spec_read_after(old(db).store(), self.spec_key(), now),
            frame_view(r) == match spec_get_result(old(db).store(), self.spec_key(), now) {
                Some(b) => FrameV::Bulk(b),
                None => FrameV::Null,
            },
    {
        match db.get(&self.key, now) {
            Some(v) => Frame::Bulk(v),
            None => Frame::Null,
        }
    }
}

} // verus!
