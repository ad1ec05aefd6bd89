//! HSET key field value: write one field of a field map.

use vstd::prelude::*;
use crate::db::{Db, spec_hset};
use crate::frame::{Frame, FrameV, frame_view};
use crate::parse::{Parse, ParseError, bytes_of, bytes_args_err};

verus! {

pub struct HSet {
    /// the lookup key
    key: Vec<u8>,
    /// the field to be stored
    field: Vec<u8>,
    /// the value to be stored
    value: Vec<u8>,
}

impl HSet {
    pub closed spec fn spec_key(self) -> Seq<u8> {
        self.key@
    }

    pub closed spec fn spec_field(self) -> Seq<u8> {
        self.field@
    }

    pub closed spec fn spec_value(self) -> Seq<u8> {
        self.value@
    }

    /// Creates a new `HSet` command which sets `field` of `key` to
    /// `value`.
    pub fn new(key: Vec<u8>, field: Vec<u8>, value: Vec<u8>) -> (r: HSet)
        ensures
            r.spec_key() == key@,
            r.spec_field() == field@,
            r.spec_value() == value@,
    {
        HSet { key, field, value }
    }

    pub fn key(&self) -> (r: &Vec<u8>)
        ensures
            r@ == self.spec_key(),
    {
        &self.key
    }

    pub fn field(&self) -> (r: &Vec<u8>)
        ensures
            r@ == self.spec_field(),
    {
        &self.field
    }

    pub fn value(&self) -> (r: &Vec<u8>)
        ensures
            r@ == self.spec_value(),
    {
        &self.value
    }

    pub fn parse_frames(parse: &mut Parse) -> (r: Result<HSet, ParseError>)
        ensures
            match r {
                Ok(hs) => old(parse).rest().len() >= 3 && bytes_of(old(parse).rest()[0])
                    == Some(hs.spec_key()) && bytes_of(old(parse).rest()[1]) == Some(hs.spec_field()) && bytes_of(old(parse).rest()[2]) == Some(hs.spec_value()) && final(parse).rest() == old(parse).rest().skip(3),
                Err(e) => (old(parse).rest().len() < 3 || bytes_of(old(parse).rest()[0]) is None
                    || bytes_of(old(parse).rest()[1]) is None || bytes_of(
                    old(parse).rest()[2],
                ) is None) && bytes_args_err(old(parse).rest(), 3) == Some(e),
            },
    {
        let ghost r0 = parse.rest();
        let key = match parse.next_string() {
            Ok(k) => k,
            Err(e) => {
                return Err(e);
            },
        };
        let field = match parse.next_string() {
            Ok(f) => f,
            Err(e) => {
                proof {
                    assert(bytes_args_err(r0, 3) == bytes_args_err(r0.drop_first(), 2));
                    if r0.len() >= 2 {
                        assert(r0.drop_first()[0] == r0[1]);
                    }
                }
                return Err(e);
            },
        };
        let value = match parse.next_bytes() {
            Ok(v) => v,
            Err(e) => {
                proof {
                    let r1 = r0.drop_first();
                    assert(bytes_args_err(r0, 3) == bytes_args_err(r1, 2));
                    assert(r1[0] == r0[1]);
                    assert(bytes_args_err(r1, 2) == bytes_args_err(r1.drop_first(), 1));
                    assert(r1.drop_first() =~= r0.skip(2));
                    if r0.len() >= 3 {
                        assert(r0.skip(2)[0] == r0[2]);
                    }
                }
                return Err(e);
            },
        };
        proof {
            assert(parse.rest() =~= r0.skip(3));
        }
        Ok(HSet { key, field, value })
    }

    /// Applies the write against the engine; the reply is always the
    /// simple string `OK`.
    pub fn apply(self, db: &mut Db, now: u64) -> (r: Frame)
        requires
            old(db).wf(),
        ensures
            final(db).wf(),
            final(db).chans() == old(db).chans(),
            final(db).store() == spec_hset(
                old(db).store(),
                self.spec_key(),
                self.spec_field(),
                self.spec_value(),
                now,
            ),
            frame_view(r) == FrameV::Simple(seq![79u8, 75u8]),
    {
        db.hset(self.key, self.field, self.value, now);
        let mut ok: Vec<u8> = Vec::new();
        ok.push(79);
        ok.push(75);
        proof {
            assert(ok@ =~= seq![79u8, 75u8]);
        }
        Frame::Simple(ok)
    }

    /// The command as it travels on the wire.
    pub fn into_frame(self) -> (r: Frame)
        ensures
            frame_view(r) == FrameV::Array(
                seq![
                    FrameV::Bulk(seq![104u8, 115u8, 101u8, 116u8]),
                    FrameV::Bulk(self.spec_key()),
                    FrameV::Bulk(self.spec_field()),
                    FrameV::Bulk(self.spec_value()),
                ],
            ),
    {
        let mut items: Vec<Frame> = Vec::new();
        let mut verb: Vec<u8> = Vec::new();
        verb.push(104);
        verb.push(115);
        verb.push(101);
        verb.push(116);
        proof {
            assert(verb@ =~= seq![104u8, 115u8, 101u8, 116u8]);
        }
        items.push(Frame::Bulk(verb));
        items.push(Frame::Bulk(self.key));
        items.push(Frame::Bulk(self.field));
        items.push(Frame::Bulk(self.value));
        let r = Frame::Array(items);
        proof {
            assert(frame_view(items@[0]) == FrameV::Bulk(seq![104u8, 115u8, 101u8, 116u8]));
            assert(frame_view(items@[1]) == FrameV::Bulk(self.spec_key()));
            assert(frame_view(items@[2]) == FrameV::Bulk(self.spec_field()));
            assert(frame_view(items@[3]) == FrameV::Bulk(self.spec_value()));
            assert(frame_view(r)->Array_0 =~= seq![
                FrameV::Bulk(seq![104u8, 115u8, 101u8, 116u8]),
                FrameV::Bulk(self.spec_key()),
                FrameV::Bulk(self.spec_field()),
                FrameV::Bulk(self.spec_value()),
            ]);
        }
        r
    }
}

} // verus!
