//! HGETALL key: read a whole field map.

use vstd::prelude::*;
use crate::db::{Db, expired, spec_read_after, fields_view};
use crate::frame::{Frame, FrameV, frame_view};
use crate::parse::{Parse, ParseError, bytes_of, bytes_args_err};

verus! {

pub struct HGetAll {
    key: Vec<u8>,
}

/// The reply shape for a present field map: alternating field and
/// value bulk frames, in map order.
pub open spec fn alternating(fs: Seq<(Seq<u8>, Seq<u8>)>) -> Seq<FrameV> {
    Seq::new(
        2 * fs.len(),
        |i: int|
            if i % 2 == 0 {
                FrameV::Bulk(fs[i / 2].0)
            } else {
                FrameV::Bulk(fs[i / 2].1)
            },
    )
}

impl HGetAll {
    pub closed spec fn spec_key(self) -> Seq<u8> {
        self.key@
    }

    pub fn new(key: Vec<u8>) -> (r: Self)
        ensures
            r.spec_key() == key@,
    {
        Self { key }
    }

    pub fn get_key(&self) -> (r: &Vec<u8>)
        ensures
            r@ == self.spec_key(),
    {
        &self.key
    }

    pub fn parse_frames(parse: &mut Parse) -> (r: Result<HGetAll, ParseError>)
        ensures
            match r {
                Ok(hg) => old(parse).rest().len() >= 1 && bytes_of(old(parse).rest()[0])
                    == Some(hg.spec_key()) && final(parse).rest() == old(parse).rest().skip(1),
                Err(e) => (old(parse).rest().len() < 1 || bytes_of(old(parse).rest()[0]) is None)
                    && bytes_args_err(old(parse).rest(), 1) == Some(e),
            },
    {
        let ghost r0 = parse.rest();
        let key = match parse.next_string() {
            Ok(k) => k,
            Err(e) => {
                return Err(e);
            },
        };
        proof {
            assert(parse.rest() =~= r0.skip(1));
        }
        Ok(HGetAll { key })
    }

    /// Applies the read and shapes the reply: an array of alternating
    /// field and value bulk frames, or the null frame when the key is
    /// absent, expired, or holds a scalar.
    pub fn apply(self, db: &mut Db, now: u64) -> (r: Frame)
        requires
            old(db).wf(),
        ensures
            final(db).wf(),
            final(db).chans() == old(db).chans(),
            final(db).store() == spec_read_after(old(db).store(), self.spec_key(), now),
            ({
                let m = old(db).store();
                let k = self.spec_key();
                if m.contains_key(k) && !expired(m[k], now) && m[k].value is Fields {
                    frame_view(r) == FrameV::Array(alternating(m[k].value->Fields_0))
                } else {
                    frame_view(r) == FrameV::Null
                }
            }),
    {
        match db.hgetall(&self.key, now) {
            None => Frame::Null,
            Some(fs) => {
                let ghost fv = fields_view(fs@);
                let mut items: Vec<Frame> = Vec::new();
                let mut j: usize = 0;
                while j < fs.len()
                    invariant
                        j <= fs@.len(),
                        fv == fields_view(fs@),
                        items@.len() == 2 * j,
                        forall|t: int|
                            0 <= t < items@.len() ==> frame_view(#[trigger] items@[t]) == (
                            if t % 2 == 0 {
                                FrameV::Bulk(fv[t / 2].0)
                            } else {
                                FrameV::Bulk(fv[t / 2].1)
                            }),
                    decreases fs@.len() - j,
                {
                    let f = crate::util::dup(&fs[j].field);
                    let v = crate::util::dup(&fs[j].value);
                    items.push(Frame::Bulk(f));
                    items.push(Frame::Bulk(v));
                    j = j + 1;
                }
                let r = Frame::Array(items);
                proof {
                    assert(frame_view(r)->Array_0 =~= alternating(fv));
                }
                r
            },
        }
    }

    /// The command as it travels on the wire.
    pub fn into_frame(self) -> (r: Frame)
        ensures
            frame_view(r) == FrameV::Array(
                seq![
                    FrameV::Bulk(seq![104u8, 103u8, 101u8, 116u8, 97u8, 108u8, 108u8]),
                    FrameV::Bulk(self.spec_key()),
                ],
            ),
    {
        let mut items: Vec<Frame> = Vec::new();
        let mut verb: Vec<u8> = Vec::new();
        verb.push(104);
        verb.push(103);
        verb.push(101);
        verb.push(116);
        verb.push(97);
        verb.push(108);
        verb.push(108);
        proof {
            assert(verb@ =~= seq![104u8, 103u8, 101u8, 116u8, 97u8, 108u8, 108u8]);
        }
        items.push(Frame::Bulk(verb));
        items.push(Frame::Bulk(self.key));
        let r = Frame::Array(items);
        proof {
            assert(frame_view(items@[0]) == FrameV::Bulk(
                seq![104u8, 103u8, 101u8, 116u8, 97u8, 108u8, 108u8],
            ));
            assert(frame_view(items@[1]) == FrameV::Bulk(self.spec_key()));
            assert(frame_view(r)->Array_0 =~= seq![
                FrameV::Bulk(seq![104u8, 103u8, 101u8, 116u8, 97u8, 108u8, 108u8]),
                FrameV::Bulk(self.spec_key()),
            ]);
        }
        r
    }
}

} // verus!
