//! SUBSCRIBE channel... and UNSUBSCRIBE [channel...]: argument
//! extraction for the subscription verbs; their effect runs through
//! the connection handler, which owns the session state.

use vstd::prelude::*;
use crate::frame::FrameV;
use crate::parse::{Parse, ParseError, bytes_of};

verus! {

/// The channel names carried by the remaining arguments, when every
/// one of them is byte-shaped.
pub open spec fn names_of(items: Seq<FrameV>) -> Option<Seq<Seq<u8>>>
    decreases items.len(),
{
    if items.len() == 0 {
        Some(Seq::empty())
    } else {
        match bytes_of(items[0]) {
            None => None,
            Some(b) => match names_of(items.drop_first()) {
                None => None,
                Some(r) => Some(seq![b] + r),
            },
        }
    }
}

pub struct Subscribe {
    channels: Vec<Vec<u8>>,
}

pub struct Unsubscribe {
    channels: Vec<Vec<u8>>,
}

/// The views of a list of channel names.
pub open spec fn channels_view(cs: Seq<Vec<u8>>) -> Seq<Seq<u8>> {
    Seq::new(cs.len(), |i: int| cs[i]@)
}

/// Collects every remaining argument as a channel name.
fn collect_channels(parse: &mut Parse) -> (r: Result<Vec<Vec<u8>>, ParseError>)
    ensures
        match r {
            Ok(cs) => names_of(old(parse).rest()) == Some(channels_view(cs@)) && final(parse).rest().len() == 0,
            Err(e) => names_of(old(parse).rest()) is None && e == ParseError::WrongType,
        },
{
    let mut cs: Vec<Vec<u8>> = Vec::new();
    proof {
        assert(channels_view(cs@) =~= Seq::<Seq<u8>>::empty());
    }
    loop
        invariant
            match names_of(old(parse).rest()) {
                Some(all) => names_of(parse.rest()) is Some && all == channels_view(cs@)
                    + names_of(parse.rest())->0,
                None => names_of(parse.rest()) is None,
            },
        decreases parse.rest().len(),
    {
        if parse.remaining() == 0 {
            proof {
                if names_of(old(parse).rest()) is Some {
                    assert(names_of(parse.rest()) == Some(Seq::<Seq<u8>>::empty()));
                    assert(channels_view(cs@) + Seq::<Seq<u8>>::empty() =~= channels_view(cs@));
                }
            }
            return Ok(cs);
        }
        let ghost pre = parse.rest();
        let ghost pcs = cs@;
        match parse.next_bytes() {
            Err(e) => {
                proof {
                    assert(names_of(pre) is None);
                }
                return Err(e);
            },
            Ok(b) => {
                cs.push(b);
                proof {
                    assert(channels_view(cs@) =~= channels_view(pcs).push(cs@[pcs.len() as int]@));
                    if names_of(old(parse).rest()) is Some {
                        assert(names_of(pre) == Some(
                            seq![bytes_of(pre[0])->0] + names_of(parse.rest())->0,
                        ));
                        assert(channels_view(pcs) + names_of(pre)->0 =~= channels_view(cs@)
                            + names_of(parse.rest())->0);
                    }
                }
            },
        }
    }
}

impl Subscribe {
    pub closed spec fn spec_channels(self) -> Seq<Seq<u8>> {
        channels_view(self.channels@)
    }

    pub fn new(channels: Vec<Vec<u8>>) -> (r: Self)
        ensures
            r.spec_channels() == channels_view(channels@),
    {
        Self { channels }
    }

    pub fn channels(&self) -> (r: &Vec<Vec<u8>>)
        ensures
            channels_view(r@) == self.spec_channels(),
    {
        &self.channels
    }

    pub fn into_channels(self) -> (r: Vec<Vec<u8>>)
        ensures
            channels_view(r@) == self.spec_channels(),
    {
        self.channels
    }

    /// At least one channel name is required.
    pub fn parse_frames(parse: &mut Parse) -> (r: Result<Subscribe, ParseError>)
        ensures
            match r {
                Ok(sb) => names_of(old(parse).rest()) == Some(sb.spec_channels())
                    && sb.spec_channels().len() >= 1 && final(parse).rest().len() == 0,
                Err(e) => if old(parse).rest().len() == 0 {
                    e == ParseError::EndOfStream
                } else {
                    names_of(old(parse).rest()) is None && e == ParseError::WrongType
                },
            },
    {
        if parse.remaining() == 0 {
            return Err(ParseError::EndOfStream);
        }
        let ghost n0 = old(parse).rest().len();
        let cs = match collect_channels(parse) {
            Ok(cs) => cs,
            Err(e) => {
                return Err(e);
            },
        };
        proof {
            assert(names_of(old(parse).rest())->0.len() >= 1) by {
                lemma_names_len(old(parse).rest());
            }
        }
        Ok(Subscribe { channels: cs })
    }
}

/// A present answer of `names_of` has one name per argument.
pub proof fn lemma_names_len(items: Seq<FrameV>)
    ensures
        names_of(items) is Some ==> names_of(items)->0.len() == items.len(),
    decreases items.len(),
{
    if items.len() > 0 {
        lemma_names_len(items.drop_first());
    }
}

impl Unsubscribe {
    pub closed spec fn spec_channels(self) -> Seq<Seq<u8>> {
        channels_view(self.channels@)
    }

    pub fn new(channels: Vec<Vec<u8>>) -> (r: Self)
        ensures
            r.spec_channels() == channels_view(channels@),
    {
        Self { channels }
    }

    pub fn channels(&self) -> (r: &Vec<Vec<u8>>)
        ensures
            channels_view(r@) == self.spec_channels(),
    {
        &self.channels
    }

    pub fn into_channels(self) -> (r: Vec<Vec<u8>>)
        ensures
            channels_view(r@) == self.spec_channels(),
    {
        self.channels
    }

    /// No names at all means: all currently subscribed channels.
    pub fn parse_frames(parse: &mut Parse) -> (r: Result<Unsubscribe, ParseError>)
        ensures
            match r {
                Ok(us) => names_of(old(parse).rest()) == Some(us.spec_channels()) && final(parse).rest().len() == 0,
                Err(e) => names_of(old(parse).rest()) is None && e == ParseError::WrongType,
            },
    {
        let cs = match collect_channels(parse) {
            Ok(cs) => cs,
            Err(e) => {
                return Err(e);
            },
        };
        Ok(Unsubscribe { channels: cs })
    }
}

} // verus!
