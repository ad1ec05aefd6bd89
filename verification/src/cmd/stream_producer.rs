//! XADD, XREAD and XRANGE: argument carriers for the append-style
//! stream verbs. The engine-side effect of these verbs is not wired
//! up yet, so they stop at typed argument extraction.

use vstd::prelude::*;
use vstd::string::StringSliceAdditionalSpecFns;
use crate::frame::{Frame, FrameV, frame_view};
use crate::util::str_bytes;

verus! {

/// Each string as a bulk frame of its UTF-8 bytes.
pub open spec fn bulk_of_strings(cs: Seq<Seq<char>>) -> Seq<FrameV> {
    Seq::new(cs.len(), |i: int| FrameV::Bulk(vstd::utf8::encode_utf8(cs[i])))
}

/// XADD stream entry [entry ...]: append an entry to a stream.
pub struct XAdd {
    /// Name of the stream to append to.
    stream_name: String,
    /// Entries as alternating field and value strings.
    entries: Vec<String>,
}

/// XREAD: read entries newer than the last id the caller saw.
pub struct XRead {
    stream: String,
    entry: String,
    value: Vec<u8>,
}

/// XRANGE key start end: read the entries within a range of ids.
pub struct XRange {
    stream: String,
    entry: String,
    value: Vec<u8>,
}

pub open spec fn strings_view(cs: Seq<String>) -> Seq<Seq<char>> {
    Seq::new(cs.len(), |i: int| cs[i]@)
}

impl XAdd {
    pub closed spec fn spec_stream(self) -> Seq<char> {
        self.stream_name@
    }

    pub closed spec fn spec_entries(self) -> Seq<Seq<char>> {
        strings_view(self.entries@)
    }

    /// Creates a new `XAdd` for `stream` carrying `entries`.
    pub fn new(stream: String, entries: Vec<String>) -> (r: XAdd)
        ensures
            r.spec_stream() == stream@,
            r.spec_entries() == strings_view(entries@),
    {
        XAdd { stream_name: stream, entries }
    }

    /// Gets the stream name.
    pub fn stream(&self) -> (r: &str)
        ensures
            r@ == self.spec_stream(),
    {
        self.stream_name.as_str()
    }

    /// The command as it travels on the wire: the verb, the stream
    /// name, then every entry string, all as bulk frames.
    pub fn into_frame(self) -> (r: Frame)
        ensures
            frame_view(r) == FrameV::Array(
                seq![
                    FrameV::Bulk(seq![120u8, 97u8, 100u8, 100u8]),
                    FrameV::Bulk(vstd::utf8::encode_utf8(self.spec_stream())),
                ] + bulk_of_strings(self.spec_entries()),
            ),
    {
        let ghost es = strings_view(self.entries@);
        let mut items: Vec<Frame> = Vec::new();
        let verb: Vec<u8> = vec![120u8, 97u8, 100u8, 100u8];
        items.push(Frame::Bulk(verb));
        items.push(Frame::Bulk(str_bytes(self.stream_name.as_str())));
        let mut j: usize = 0;
        while j < self.entries.len()
            invariant
                j <= self.entries@.len(),
                es == strings_view(self.entries@),
                items@.len() == 2 + j,
                frame_view(items@[0]) == FrameV::Bulk(seq![120u8, 97u8, 100u8, 100u8]),
                frame_view(items@[1]) == FrameV::Bulk(
                    vstd::utf8::encode_utf8(self.stream_name@),
                ),
                forall|t: int|
                    2 <= t < items@.len() ==> frame_view(#[trigger] items@[t]) == FrameV::Bulk(
                        vstd::utf8::encode_utf8(es[t - 2]),
                    ),
            decreases self.entries@.len() - j,
        {
            let e = str_bytes(self.entries[j].as_str());
            proof {
                assert(es[j as int] == self.entries@[j as int]@);
            }
            items.push(Frame::Bulk(e));
            j = j + 1;
        }
        let r = Frame::Array(items);
        proof {
            assert(frame_view(r)->Array_0 =~= seq![
                FrameV::Bulk(seq![120u8, 97u8, 100u8, 100u8]),
                FrameV::Bulk(vstd::utf8::encode_utf8(self.spec_stream())),
            ] + bulk_of_strings(es));
        }
        r
    }
}

impl XRead {
    pub closed spec fn spec_stream(self) -> Seq<char> {
        self.stream@
    }

    pub closed spec fn spec_entry(self) -> Seq<char> {
        self.entry@
    }

    pub closed spec fn spec_value(self) -> Seq<u8> {
        self.value@
    }

    pub fn new(stream: String, entry: String, value: Vec<u8>) -> (r: XRead)
        ensures
            r.spec_stream() == stream@,
            r.spec_entry() == entry@,
            r.spec_value() == value@,
    {
        XRead { stream, entry, value }
    }

    pub fn stream(&self) -> (r: &str)
        ensures
            r@ == self.spec_stream(),
    {
        self.stream.as_str()
    }

    pub fn entry(&self) -> (r: &str)
        ensures
            r@ == self.spec_entry(),
    {
        self.entry.as_str()
    }

    pub fn value(&self) -> (r: &Vec<u8>)
        ensures
            r@ == self.spec_value(),
    {
        &self.value
    }

    /// The command as it travels on the wire.
    pub fn into_frame(self) -> (r: Frame)
        ensures
            frame_view(r) == FrameV::Array(
                seq![
                    FrameV::Bulk(seq![120u8, 114u8, 101u8, 97u8, 100u8]),
                    FrameV::Bulk(vstd::utf8::encode_utf8(self.spec_stream())),
                    FrameV::Bulk(vstd::utf8::encode_utf8(self.spec_entry())),
                    FrameV::Bulk(self.spec_value()),
                ],
            ),
    {
        let mut items: Vec<Frame> = Vec::new();
        let verb: Vec<u8> = vec![120u8, 114u8, 101u8, 97u8, 100u8];
        items.push(Frame::Bulk(verb));
        items.push(Frame::Bulk(str_bytes(self.stream.as_str())));
        items.push(Frame::Bulk(str_bytes(self.entry.as_str())));
        items.push(Frame::Bulk(self.value));
        let r = Frame::Array(items);
        proof {
            assert(frame_view(items@[0]) == FrameV::Bulk(seq![120u8, 114u8, 101u8, 97u8, 100u8]));
            assert(frame_view(items@[1]) == FrameV::Bulk(
                vstd::utf8::encode_utf8(self.spec_stream()),
            ));
            assert(frame_view(items@[2]) == FrameV::Bulk(
                vstd::utf8::encode_utf8(self.spec_entry()),
            ));
            assert(frame_view(items@[3]) == FrameV::Bulk(self.spec_value()));
            assert(frame_view(r)->Array_0 =~= seq![
                FrameV::Bulk(seq![120u8, 114u8, 101u8, 97u8, 100u8]),
                FrameV::Bulk(vstd::utf8::encode_utf8(self.spec_stream())),
                FrameV::Bulk(vstd::utf8::encode_utf8(self.spec_entry())),
                FrameV::Bulk(self.spec_value()),
            ]);
        }
        r
    }
}

impl XRange {
    pub closed spec fn spec_stream(self) -> Seq<char> {
        self.stream@
    }

    pub closed spec fn spec_entry(self) -> Seq<char> {
        self.entry@
    }

    pub closed spec fn spec_value(self) -> Seq<u8> {
        self.value@
    }

    pub fn new(stream: String, entry: String, value: Vec<u8>) -> (r: XRange)
        ensures
            r.spec_stream() == stream@,
            r.spec_entry() == entry@,
            r.spec_value() == value@,
    {
        XRange { stream, entry, value }
    }

    pub fn stream(&self) -> (r: &str)
        ensures
            r@ == self.spec_stream(),
    {
        self.stream.as_str()
    }

    pub fn entry(&self) -> (r: &str)
        ensures
            r@ == self.spec_entry(),
    {
        self.entry.as_str()
    }

    pub fn value(&self) -> (r: &Vec<u8>)
        ensures
            r@ == self.spec_value(),
    {
        &self.value
    }

    /// The command as it travels on the wire.
    pub fn into_frame(self) -> (r: Frame)
        ensures
            frame_view(r) == FrameV::Array(
                seq![
                    FrameV::Bulk(seq![120u8, 114u8, 97u8, 110u8, 103u8, 101u8]),
                    FrameV::Bulk(vstd::utf8::encode_utf8(self.spec_stream())),
                    FrameV::Bulk(vstd::utf8::encode_utf8(self.spec_entry())),
                    FrameV::Bulk(self.spec_value()),
                ],
            ),
    {
        let mut items: Vec<Frame> = Vec::new();
        let verb: Vec<u8> = vec![120u8, 114u8, 97u8, 110u8, 103u8, 101u8];
        items.push(Frame::Bulk(verb));
        items.push(Frame::Bulk(str_bytes(self.stream.as_str())));
        items.push(Frame::Bulk(str_bytes(self.entry.as_str())));
        items.push(Frame::Bulk(self.value));
        let r = Frame::Array(items);
        proof {
            assert(frame_view(items@[0]) == FrameV::Bulk(
                seq![120u8, 114u8, 97u8, 110u8, 103u8, 101u8],
            ));
            assert(frame_view(items@[1]) == FrameV::Bulk(
                vstd::utf8::encode_utf8(self.spec_stream()),
            ));
            assert(frame_view(items@[2]) == FrameV::Bulk(
                vstd::utf8::encode_utf8(self.spec_entry()),
            ));
            assert(frame_view(items@[3]) == FrameV::Bulk(self.spec_value()));
            assert(frame_view(r)->Array_0 =~= seq![
                FrameV::Bulk(seq![120u8, 114u8, 97u8, 110u8, 103u8, 101u8]),
                FrameV::Bulk(vstd::utf8::encode_utf8(self.spec_stream())),
                FrameV::Bulk(vstd::utf8::encode_utf8(self.spec_entry())),
                FrameV::Bulk(self.spec_value()),
            ]);
        }
        r
    }
}

} // verus!
