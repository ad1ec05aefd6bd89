//! HGET key field: read one field of a field map.

use vstd::prelude::*;
use crate::db::{Db, spec_hget_result, spec_read_after};
use crate::frame::{Frame, FrameV, frame_view};
use crate::parse::{Parse, ParseError, bytes_of, bytes_args_err};

verus! {

pub struct HGet {
    key: Vec<u8>,
    field: Vec<u8>,
}

impl HGet {
    pub closed spec fn spec_key(self) -> Seq<u8> {
        self.key@
    }

    pub closed spec fn spec_field(self) -> Seq<u8> {
        self.field@
    }

    pub fn new(key: Vec<u8>, field: Vec<u8>) -> (r: Self)
        ensures
            r.spec_key() == key@,
            r.spec_field() == field@,
    {
        Self { key, field }
    }

    pub fn get_key(&self) -> (r: &Vec<u8>)
        ensures
            r@ == self.spec_key(),
    {
        &self.key
    }

    pub fn get_field(&self) -> (r: &Vec<u8>)
        ensures
            r@ == self.spec_field(),
    {
        &self.field
    }

    /// Extracts `key` and `field`; both must be byte-shaped arguments.
    pub fn parse_frames(parse: &mut Parse) -> (r: Result<HGet, ParseError>)
        ensures
            match r {
                Ok(hg) => old(parse).rest().len() >= 2 && bytes_of(old(parse).rest()[0])
                    == Some(hg.spec_key()) && bytes_of(old(parse).rest()[1]) == Some(hg.spec_field()) && final(parse).rest() == old(parse).rest().skip(2),
                Err(e) => (old(parse).rest().len() < 2 || bytes_of(old(parse).rest()[0]) is None
                    || bytes_of(old(parse).rest()[1]) is None) && bytes_args_err(
                    old(parse).rest(),
                    2,
                ) == Some(e),
            },
    {
        let ghost r0 = parse.rest();
        let key = match parse.next_string() {
            Ok(k) => k,
            Err(e) => {
                return Err(e);
            },
        };
        let field = match parse.next_string() {
            Ok(f) => f,
            Err(e) => {
                proof {
                    assert(bytes_args_err(r0, 2) == bytes_args_err(r0.drop_first(), 1));
                    if r0.len() >= 2 {
                        assert(r0.drop_first()[0] == r0[1]);
                    }
                }
                return Err(e);
            },
        };
        proof {
            assert(parse.rest() =~= r0.skip(2));
        }
        Ok(HGet { key, field })
    }

    /// Applies the read against the engine and shapes the reply: the
    /// payload as a bulk frame, or the null frame when the key or the
    /// field is absent.
    pub fn apply(self, db: &mut Db, now: u64) -> (r: Frame)
        requires
            old(db).wf(),
        ensures
            final(db).wf(),
            final(db).chans() == old(db).chans(),
            final(db).store() == spec_read_after(old(db).store(), self.spec_key(), now),
            frame_view(r) == match spec_hget_result(
                old(db).store(),
                self.spec_key(),
                self.spec_field(),
                now,
            ) {
                Some(b) => FrameV::Bulk(b),
                None => FrameV::Null,
            },
    {
        match db.hget(&self.key, &self.field, now) {
            Some(v) => Frame::Bulk(v),
            None => Frame::Null,
        }
    }

    /// The command as it travels on the wire: an array of bulk
    /// strings, verb first.
    pub fn into_frame(self) -> (r: Frame)
        ensures
            frame_view(r) == FrameV::Array(
                seq![
                    FrameV::Bulk(seq![104u8, 103u8, 101u8, 116u8]),
                    FrameV::Bulk(self.spec_key()),
                    FrameV::Bulk(self.spec_field()),
                ],
            ),
    {
        let mut items: Vec<Frame> = Vec::new();
        let mut verb: Vec<u8> = Vec::new();
        verb.push(104);
        verb.push(103);
        verb.push(101);
        verb.push(116);
        proof {
            assert(verb@ =~= seq![104u8, 103u8, 101u8, 116u8]);
        }
        items.push(Frame::Bulk(verb));
        items.push(Frame::Bulk(self.key));
        items.push(Frame::Bulk(self.field));
        let r = Frame::Array(items);
        proof {
            assert(frame_view(items@[0]) == FrameV::Bulk(seq![104u8, 103u8, 101u8, 116u8]));
            assert(frame_view(items@[1]) == FrameV::Bulk(self.spec_key()));
            assert(frame_view(items@[2]) == FrameV::Bulk(self.spec_field()));
            assert(frame_view(r)->Array_0 =~= seq![
                FrameV::Bulk(seq![104u8, 103u8, 101u8, 116u8]),
                FrameV::Bulk(self.spec_key()),
                FrameV::Bulk(self.spec_field()),
            ]);
        }
        r
    }
}

} // verus!
