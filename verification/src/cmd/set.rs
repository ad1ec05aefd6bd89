//! SET key value [expire-ms]: write a scalar, with an optional
//! relative expiry in milliseconds.

use vstd::prelude::*;
use crate::db::{Db, EntryV, ValueV};
use crate::frame::{Frame, FrameV, frame_view};
use crate::parse::{Parse, ParseError, bytes_of, int_of, bytes_args_err};

verus! {

pub struct SetCmd {
    key: Vec<u8>,
    value: Vec<u8>,
    expire_ms: Option<u64>,
}

/// The absolute deadline a relative expiry denotes, saturating at the
/// end of representable time.
pub open spec fn deadline_of(now: u64, ms: u64) -> u64 {
    if now + ms > u64::MAX {
        u64::MAX
    } else {
        (now + ms) as u64
    }
}

impl SetCmd {
    pub closed spec fn spec_key(self) -> Seq<u8> {
        self.key@
    }

    pub closed spec fn spec_value(self) -> Seq<u8> {
        self.value@
    }

    pub closed spec fn spec_expire_ms(self) -> Option<u64> {
        self.expire_ms
    }

    pub fn new(key: Vec<u8>, value: Vec<u8>, expire_ms: Option<u64>) -> (r: Self)
        ensures
            r.spec_key() == key@,
            r.spec_value() == value@,
            r.spec_expire_ms() == expire_ms,
    {
        Self { key, value, expire_ms }
    }

    pub fn key(&self) -> (r: &Vec<u8>)
        ensures
            r@ == self.spec_key(),
    {
        &self.key
    }

    pub fn value(&self) -> (r: &Vec<u8>)
        ensures
            r@ == self.spec_value(),
    {
        &self.value
    }

    pub fn expire_ms(&self) -> (r: Option<u64>)
        ensures
            r == self.spec_expire_ms(),
    {
        self.expire_ms
    }

    /// Extracts `key`, `value`, and the optional trailing expiry.
    pub fn parse_frames(parse: &mut Parse) -> (r: Result<SetCmd, ParseError>)
        ensures
            match r {
                Ok(st) => old(parse).rest().len() >= 2 && bytes_of(old(parse).rest()[0]) == Some(st.spec_key()) && bytes_of(old(parse).rest()[1]) == Some(st.spec_value()) && match st
                    .spec_expire_ms() {
                    None => old(parse).rest().len() == 2 && final(parse).rest() == old(
                        parse,
                    ).rest().skip(2),
                    Some(ms) => old(parse).rest().len() >= 3 && int_of(old(parse).rest()[2])
                        == Some(ms) && final(parse).rest() == old(parse).rest().skip(3),
                },
                Err(e) => match bytes_args_err(old(parse).rest(), 2) {
                    Some(e2) => e == e2 && (old(parse).rest().len() < 2 || bytes_of(
                        old(parse).rest()[0],
                    ) is None || bytes_of(old(parse).rest()[1]) is None),
                    None => old(parse).rest().len() >= 3 && int_of(old(parse).rest()[2]) is None
                        && e == ParseError::WrongType,
                },
            },
    {
        let ghost r0 = parse.rest();
        let key = match parse.next_string() {
            Ok(k) => k,
            Err(e) => {
                return Err(e);
            },
        };
        let value = match parse.next_bytes() {
            Ok(v) => v,
            Err(e) => {
                proof {
                    assert(bytes_args_err(r0, 2) == bytes_args_err(r0.drop_first(), 1));
                    if r0.len() >= 2 {
                        assert(r0.drop_first()[0] == r0[1]);
                    }
                }
                return Err(e);
            },
        };
        if parse.remaining() == 0 {
            proof {
                assert(parse.rest() =~= r0.skip(2));
            }
            return Ok(SetCmd { key, value, expire_ms: None });
        }
        let ms = match parse.next_int() {
            Ok(n) => n,
            Err(e) => {
                proof {
                    let r1 = r0.drop_first();
                    assert(bytes_args_err(r0, 2) == bytes_args_err(r1, 1));
                    assert(r1[0] == r0[1]);
                    assert(bytes_args_err(r1, 1) == bytes_args_err(r1.drop_first(), 0));
                    assert(bytes_args_err(r1.drop_first(), 0) is None);
                    assert(r0.skip(2)[0] == r0[2]);
                }
                return Err(e);
            },
        };
        proof {
            assert(parse.rest() =~= r0.skip(3));
        }
        Ok(SetCmd { key, value, expire_ms: Some(ms) })
    }

    /// Applies the write: the prior value and deadline of the key are
    /// replaced whole; the reply is always the simple string `OK`.
    pub fn apply(self, db: &mut Db, now: u64) -> (r: Frame)
        requires
            old(db).wf(),
        ensures
            final(db).wf(),
            final(db).chans() == old(db).chans(),
            final(db).store() == old(db).store().insert(
                self.spec_key(),
                EntryV {
                    value: ValueV::Scalar(self.spec_value()),
                    expires_at: match self.spec_expire_ms() {
                        None => None,
                        Some(ms) => Some(deadline_of(now, ms)),
                    },
                },
            ),
            frame_view(r) == FrameV::Simple(seq![79u8, 75u8]),
    {
        let expires_at: Option<u64> = match self.expire_ms {
            None => None,
            Some(ms) => if ms > u64::MAX - now {
                Some(u64::MAX)
            } else {
                Some(now + ms)
            },
        };
        db.set(self.key, self.value, expires_at);
        let mut ok: Vec<u8> = Vec::new();
        ok.push(79);
        ok.push(75);
        proof {
            assert(ok@ =~= seq![79u8, 75u8]);
        }
        Frame::Simple(ok)
    }
}

} // verus!
