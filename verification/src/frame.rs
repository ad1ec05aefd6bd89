//! The wire-level frame codec: a closed set of typed protocol values
//! and their byte-exact mapping to and from the byte stream.
//!
//! Text of simple and error frames, bulk payloads, keys and channel
//! names are all carried as raw bytes: the protocol is binary-safe and
//! the codec never inspects payload contents.

use vstd::prelude::*;
use crate::util::{dec_rep, parse_dec, all_digits, dec_val, lemma_dec_rep_digits, lemma_dec_rep_val};
use crate::util::{push_dec, push_all, copy_range, parse_decimal};

verus! {

/// The mathematical shape of a frame: what contracts and proofs speak of.
pub ghost enum FrameV {
    Simple(Seq<u8>),
    Error(Seq<u8>),
    Integer(u64),
    Bulk(Seq<u8>),
    Null,
    Array(Seq<FrameV>),
}

/// One self-delimited unit of the wire protocol.
#[derive(Debug, PartialEq, Eq)]
pub enum Frame {
    Simple(Vec<u8>),
    Error(Vec<u8>),
    Integer(u64),
    Bulk(Vec<u8>),
    Null,
    Array(Vec<Frame>),
}

pub open spec fn frame_view(f: Frame) -> FrameV
    decreases f,
{
    match f {
        Frame::Simple(s) => FrameV::Simple(s@),
        Frame::Error(s) => FrameV::Error(s@),
        Frame::Integer(n) => FrameV::Integer(n),
        Frame::Bulk(b) => FrameV::Bulk(b@),
        Frame::Null => FrameV::Null,
        Frame::Array(elems) => FrameV::Array(
            Seq::new(
                elems@.len(),
                |i: int|
                    if 0 <= i < elems@.len() {
                        frame_view(elems@[i])
                    } else {
                        FrameV::Null
                    },
            ),
        ),
    }
}

impl View for Frame {
    type V = FrameV;

    open spec fn view(&self) -> FrameV {
        frame_view(*self)
    }
}

/// Line-oriented text: no carriage return and no line feed.
pub open spec fn line_ok(s: Seq<u8>) -> bool {
    forall|i: int| 0 <= i < s.len() ==> s[i] != 13 && s[i] != 10
}

/// A frame the codec can emit: line-oriented text holds no line break.
pub open spec fn wf(v: FrameV) -> bool
    decreases v,
{
    match v {
        FrameV::Simple(s) => line_ok(s),
        FrameV::Error(s) => line_ok(s),
        FrameV::Integer(n) => true,
        FrameV::Bulk(b) => b.len() <= u64::MAX,
        FrameV::Null => true,
        FrameV::Array(elems) => elems.len() <= u64::MAX && wf_seq(elems),
    }
}

/// Every frame of the sequence is well formed.
pub open spec fn wf_seq(elems: Seq<FrameV>) -> bool
    decreases elems,
{
    if elems.len() == 0 {
        true
    } else {
        wf(elems[0]) && wf_seq(elems.drop_first())
    }
}

pub open spec fn crlf() -> Seq<u8> {
    seq![13u8, 10u8]
}

/// The byte encoding of one frame.
pub open spec fn spec_encode(v: FrameV) -> Seq<u8>
    decreases v,
{
    match v {
        FrameV::Simple(s) => seq![43u8] + s + crlf(),
        FrameV::Error(s) => seq![45u8] + s + crlf(),
        FrameV::Integer(n) => seq![58u8] + dec_rep(n as nat) + crlf(),
        FrameV::Bulk(b) => seq![36u8] + dec_rep(b.len()) + crlf() + b + crlf(),
        FrameV::Null => seq![36u8, 45u8, 49u8, 13u8, 10u8],
        FrameV::Array(elems) => seq![42u8] + dec_rep(elems.len()) + crlf() + spec_encode_seq(
            elems,
        ),
    }
}

/// The concatenated encodings of a sequence of frames.
pub open spec fn spec_encode_seq(elems: Seq<FrameV>) -> Seq<u8>
    decreases elems,
{
    if elems.len() == 0 {
        Seq::empty()
    } else {
        spec_encode(elems[0]) + spec_encode_seq(elems.drop_first())
    }
}

/// What the decoder says of a byte string: more bytes are needed, the
/// leading bytes are not a frame, or a full frame stands at the front.
pub ghost enum DecodedV {
    Incomplete,
    Malformed,
    Complete(FrameV, int),
}

pub ghost enum DecodedSeqV {
    Incomplete,
    Malformed,
    Complete(Seq<FrameV>, int),
}

/// A carriage-return/line-feed pair stands at position `k` of `s`.
pub open spec fn crlf_at(s: Seq<u8>, k: int) -> bool {
    s[k] == 13 && s[k + 1] == 10
}

/// Position of the first carriage-return/line-feed pair in `s`.
pub open spec fn find_crlf(s: Seq<u8>) -> Option<nat>
    decreases s.len(),
{
    if s.len() < 2 {
        None
    } else if s[0] == 13 && s[1] == 10 {
        Some(0)
    } else {
        match find_crlf(s.drop_first()) {
            None => None,
            Some(j) => Some((j + 1) as nat),
        }
    }
}

pub proof fn lemma_find_crlf_char(s: Seq<u8>)
    ensures
        match find_crlf(s) {
            None => forall|k: int|
                0 <= k < s.len() - 1 ==> !#[trigger] crlf_at(s, k),
            Some(j) => j + 2 <= s.len() && crlf_at(s, j as int)
                && forall|k: int| 0 <= k < j ==> !#[trigger] crlf_at(s, k),
        },
    decreases s.len(),
{
    if s.len() < 2 {
    } else if s[0] == 13 && s[1] == 10 {
    } else {
        lemma_find_crlf_char(s.drop_first());
        let t = s.drop_first();
        assert(forall|k: int| 0 <= k < t.len() - 1 ==> (#[trigger] crlf_at(t, k)) == crlf_at(s, k + 1));
        assert(forall|k: int| 1 <= k < s.len() - 1 ==> (#[trigger] crlf_at(s, k)) == crlf_at(t, k - 1));
        assert(!crlf_at(s, 0));
    }
}

/// The converse: a first pair at `j` pins `find_crlf` down.
pub proof fn lemma_find_crlf_witness(s: Seq<u8>, j: int)
    requires
        0 <= j,
        j + 2 <= s.len(),
        crlf_at(s, j),
        forall|k: int| 0 <= k < j ==> !#[trigger] crlf_at(s, k),
    ensures
        find_crlf(s) == Some(j as nat),
    decreases s.len(),
{
    if j == 0 {
    } else {
        let t = s.drop_first();
        assert(forall|k: int| 0 <= k < t.len() - 1 ==> (#[trigger] crlf_at(t, k)) == crlf_at(s, k + 1));
        assert(forall|k: int| 1 <= k < s.len() - 1 ==> (#[trigger] crlf_at(s, k)) == crlf_at(t, k - 1));
        assert(!crlf_at(s, 0));
        lemma_find_crlf_witness(t, j - 1);
    }
}

pub proof fn lemma_find_crlf_none(s: Seq<u8>)
    requires
        forall|k: int| 0 <= k < s.len() - 1 ==> !#[trigger] crlf_at(s, k),
    ensures
        find_crlf(s) == None::<nat>,
    decreases s.len(),
{
    if s.len() >= 2 {
        let t = s.drop_first();
        assert(forall|k: int| 0 <= k < t.len() - 1 ==> (#[trigger] crlf_at(t, k)) == crlf_at(s, k + 1));
        assert(forall|k: int| 1 <= k < s.len() - 1 ==> (#[trigger] crlf_at(s, k)) == crlf_at(t, k - 1));
        assert(!crlf_at(s, 0));
        lemma_find_crlf_none(t);
    }
}

/// The decoder, as a function of the whole byte string: it either asks
/// for more bytes, rejects the stream, or yields the first frame and
/// the count of bytes it occupies.
pub open spec fn spec_decode(s: Seq<u8>) -> DecodedV
    decreases s.len(), 0int,
{
    if s.len() == 0 {
        DecodedV::Incomplete
    } else {
        let m = s[0];
        if m == 43 || m == 45 || m == 58 || m == 36 || m == 42 {
            match find_crlf(s.drop_first()) {
                None => DecodedV::Incomplete,
                Some(j) => {
                    let line = s.subrange(1, 1 + j as int);
                    let after: int = 3 + j as int;
                    if m == 43 {
                        DecodedV::Complete(FrameV::Simple(line), after)
                    } else if m == 45 {
                        DecodedV::Complete(FrameV::Error(line), after)
                    } else if m == 58 {
                        match parse_dec(line) {
                            Some(n) => DecodedV::Complete(FrameV::Integer(n), after),
                            None => DecodedV::Malformed,
                        }
                    } else if m == 36 {
                        if line == seq![45u8, 49u8] {
                            DecodedV::Complete(FrameV::Null, after)
                        } else {
                            match parse_dec(line) {
                                None => DecodedV::Malformed,
                                Some(len) => if s.len() >= after + len + 2 {
                                    if s[after + len] == 13 && s[after + len + 1] == 10 {
                                        DecodedV::Complete(
                                            FrameV::Bulk(s.subrange(after, after + len)),
                                            after + len + 2,
                                        )
                                    } else {
                                        DecodedV::Malformed
                                    }
                                } else {
                                    DecodedV::Incomplete
                                },
                            }
                        }
                    } else {
                        if line == seq![45u8, 49u8] {
                            DecodedV::Complete(FrameV::Null, after)
                        } else {
                            match parse_dec(line) {
                                None => DecodedV::Malformed,
                                Some(n) => if after <= s.len() {
                                    match spec_decode_seq(s.skip(after), n as nat) {
                                        DecodedSeqV::Incomplete => DecodedV::Incomplete,
                                        DecodedSeqV::Malformed => DecodedV::Malformed,
                                        DecodedSeqV::Complete(items, used) => DecodedV::Complete(
                                            FrameV::Array(items),
                                            after + used,
                                        ),
                                    }
                                } else {
                                    DecodedV::Incomplete
                                },
                            }
                        }
                    }
                },
            }
        } else {
            DecodedV::Malformed
        }
    }
}

/// Decodes `n` consecutive frames from the front of `s`.
pub open spec fn spec_decode_seq(s: Seq<u8>, n: nat) -> DecodedSeqV
    decreases s.len(), n,
{
    if n == 0 {
        DecodedSeqV::Complete(Seq::empty(), 0)
    } else {
        match spec_decode(s) {
            DecodedV::Incomplete => DecodedSeqV::Incomplete,
            DecodedV::Malformed => DecodedSeqV::Malformed,
            DecodedV::Complete(v, used) => if 0 < used <= s.len() {
                match spec_decode_seq(s.skip(used), (n - 1) as nat) {
                    DecodedSeqV::Incomplete => DecodedSeqV::Incomplete,
                    DecodedSeqV::Malformed => DecodedSeqV::Malformed,
                    DecodedSeqV::Complete(items, used2) => DecodedSeqV::Complete(
                        seq![v] + items,
                        used + used2,
                    ),
                }
            } else {
                DecodedSeqV::Malformed
            },
        }
    }
}

/// The views of a sequence of frames.
pub open spec fn frames_view(s: Seq<Frame>) -> Seq<FrameV> {
    Seq::new(s.len(), |i: int| frame_view(s[i]))
}

pub proof fn lemma_encode_seq_push(s: Seq<FrameV>, x: FrameV)
    ensures
        spec_encode_seq(s.push(x)) == spec_encode_seq(s) + spec_encode(x),
    decreases s,
{
    if s.len() == 0 {
        assert(s.push(x)[0] == x);
        assert(s.push(x).drop_first() =~= Seq::<FrameV>::empty());
        assert(spec_encode_seq(Seq::<FrameV>::empty()) == Seq::<u8>::empty());
        assert(spec_encode_seq(s.push(x)) =~= spec_encode_seq(s) + spec_encode(x));
    } else {
        assert(s.push(x).drop_first() =~= s.drop_first().push(x));
        lemma_encode_seq_push(s.drop_first(), x);
        assert(s.push(x)[0] == s[0]);
        assert(spec_encode_seq(s.push(x)) =~= spec_encode_seq(s) + spec_encode(x));
    }
}

/// Appends the encoding of `f` to `out`.
pub fn encode_into(out: &mut Vec<u8>, f: &Frame)
    ensures
        final(out)@ == old(out)@ + spec_encode(f@),
    decreases f,
{
    match f {
        Frame::Simple(s) => {
            out.push(43);
            push_all(out, s);
            out.push(13);
            out.push(10);
            assert(out@ =~= old(out)@ + spec_encode(f@));
        },
        Frame::Error(s) => {
            out.push(45);
            push_all(out, s);
            out.push(13);
            out.push(10);
            assert(out@ =~= old(out)@ + spec_encode(f@));
        },
        Frame::Integer(n) => {
            out.push(58);
            push_dec(out, *n);
            out.push(13);
            out.push(10);
            assert(out@ =~= old(out)@ + spec_encode(f@));
        },
        Frame::Bulk(b) => {
            out.push(36);
            push_dec(out, b.len() as u64);
            out.push(13);
            out.push(10);
            push_all(out, b);
            out.push(13);
            out.push(10);
            assert(out@ =~= old(out)@ + spec_encode(f@));
        },
        Frame::Null => {
            out.push(36);
            out.push(45);
            out.push(49);
            out.push(13);
            out.push(10);
            assert(out@ =~= old(out)@ + spec_encode(f@));
        },
        Frame::Array(elems) => {
            proof {
                assert(*f is Array);
                assert(f->Array_0 == *elems);
            }
            let ghost av = frame_view(*f)->Array_0;
            proof {
                assert(av =~= frames_view(elems@));
            }
            out.push(42);
            push_dec(out, elems.len() as u64);
            out.push(13);
            out.push(10);
            assert(out@ =~= old(out)@ + seq![42u8] + dec_rep(av.len()) + crlf()
                + spec_encode_seq(av.take(0)));
            let mut j: usize = 0;
            while j < elems.len()
                invariant
                    *f is Array,
                    f->Array_0 == *elems,
                    0 <= j <= elems@.len(),
                    av =~= frames_view(elems@),
                    out@ == old(out)@ + seq![42u8] + dec_rep(av.len()) + crlf()
                        + spec_encode_seq(av.take(j as int)),
                decreases elems@.len() - j,
            {
                proof {
                    lemma_array_child_decreases(*f, j as int);
                    assert(f->Array_0@[j as int] == elems@[j as int]);
                }
                encode_into(out, &elems[j]);
                proof {
                    assert(av.take(j + 1) =~= av.take(j as int).push(av[j as int]));
                    lemma_encode_seq_push(av.take(j as int), av[j as int]);
                    assert(av[j as int] == frame_view(elems@[j as int]));
                    assert(out@ =~= old(out)@ + seq![42u8] + dec_rep(av.len()) + crlf()
                        + spec_encode_seq(av.take(j + 1)));
                }
                j = j + 1;
            }
            proof {
                assert(av.take(av.len() as int) =~= av);
                assert(out@ =~= old(out)@ + spec_encode(f@));
            }
        },
    }
}

/// Encodes one frame as its wire bytes.
pub fn encode(f: &Frame) -> (r: Vec<u8>)
    ensures
        r@ == spec_encode(f@),
{
    let mut out: Vec<u8> = Vec::new();
    encode_into(&mut out, f);
    proof {
        assert(out@ =~= spec_encode(f@));
    }
    out
}


/// An array frame sits strictly above each of its elements in the
/// well-founded order that recursion descends.
proof fn lemma_array_child_decreases(f: Frame, j: int)
    requires
        f is Array,
        0 <= j < f->Array_0@.len(),
    ensures
        decreases_to!(f => f->Array_0@[j]),
{
    assert(decreases_to!(f => f->Array_0@[j]));
}

/// What one decoding attempt yields.
#[derive(Debug, PartialEq, Eq)]
pub enum Decoded {
    Incomplete,
    Malformed,
    Complete(Frame, usize),
}

#[derive(Debug, PartialEq, Eq)]
pub enum DecodedSeq {
    Incomplete,
    Malformed,
    Complete(Vec<Frame>, usize),
}

/// The executable decoder agrees with `spec_decode` on `s`.
pub open spec fn decode_matches(r: Decoded, s: Seq<u8>) -> bool {
    match r {
        Decoded::Incomplete => spec_decode(s) == DecodedV::Incomplete,
        Decoded::Malformed => spec_decode(s) == DecodedV::Malformed,
        Decoded::Complete(f, used) => spec_decode(s) == DecodedV::Complete(
            frame_view(f),
            used as int,
        ) && 0 < used <= s.len(),
    }
}

pub open spec fn decode_seq_matches(r: DecodedSeq, s: Seq<u8>, n: nat) -> bool {
    match r {
        DecodedSeq::Incomplete => spec_decode_seq(s, n) == DecodedSeqV::Incomplete,
        DecodedSeq::Malformed => spec_decode_seq(s, n) == DecodedSeqV::Malformed,
        DecodedSeq::Complete(items, used) => spec_decode_seq(s, n) == DecodedSeqV::Complete(
            frames_view(items@),
            used as int,
        ) && 0 <= used <= s.len() && items@.len() == n,
    }
}

/// Scans `buf` from `pos` for the first carriage-return/line-feed pair.
fn find_crlf_at(buf: &Vec<u8>, pos: usize) -> (r: Option<usize>)
    requires
        pos <= buf@.len(),
    ensures
        ({
            let s = buf@.skip(pos as int);
            match r {
                None => find_crlf(s) == None::<nat>,
                Some(j) => find_crlf(s) == Some(j as nat) && pos + j + 2 <= buf@.len(),
            }
        }),
{
    let ghost s = buf@.skip(pos as int);
    proof {
        assert(forall|k: int| 0 <= k < s.len() ==> (#[trigger] s[k]) == buf@[pos + k]);
    }
    let mut i: usize = pos;
    while i < buf.len() && buf.len() - i >= 2
        invariant
            pos <= i <= buf@.len(),
            s == buf@.skip(pos as int),
            forall|k: int| 0 <= k < i - pos ==> !#[trigger] crlf_at(s, k),
        decreases buf@.len() - i,
    {
        if buf[i] == 13 && buf[i + 1] == 10 {
            proof {
                assert(s[i - pos] == buf@[i as int] && s[i - pos + 1] == buf@[i + 1]);
                assert(crlf_at(s, i - pos));
                lemma_find_crlf_witness(s, i - pos);
            }
            return Some(i - pos);
        }
        proof {
            assert(s[i - pos] == buf@[i as int]);
            if i - pos + 1 < s.len() {
                assert(s[i - pos + 1] == buf@[i + 1]);
            }
            assert(!crlf_at(s, i - pos));
        }
        i = i + 1;
    }
    proof {
        assert(forall|k: int| 0 <= k < s.len() - 1 ==> !#[trigger] crlf_at(s, k));
        lemma_find_crlf_none(s);
    }
    None
}

/// Decodes the frame that starts at `pos` in `buf`.
pub fn decode_at(buf: &Vec<u8>, pos: usize) -> (r: Decoded)
    requires
        pos <= buf@.len(),
    ensures
        decode_matches(r, buf@.skip(pos as int)),
    decreases buf@.len() - pos, 0int,
{
    let ghost s = buf@.skip(pos as int);
    proof {
        assert(s.len() == buf@.len() - pos);
        assert(forall|k: int| 0 <= k < s.len() ==> (#[trigger] s[k]) == buf@[pos + k]);
    }
    if pos == buf.len() {
        return Decoded::Incomplete;
    }
    let m = buf[pos];
    proof {
        assert(m == s[0]);
    }
    if !(m == 43 || m == 45 || m == 58 || m == 36 || m == 42) {
        return Decoded::Malformed;
    }
    let fr = find_crlf_at(buf, pos + 1);
    proof {
        assert(s.drop_first() =~= buf@.skip(pos + 1));
    }
    match fr {
        None => Decoded::Incomplete,
        Some(j) => {
            let lp = pos + 1;
            let le = lp + j;
            let ghost line = s.subrange(1, 1 + j as int);
            proof {
                assert(line =~= buf@.subrange(lp as int, le as int));
            }
            if m == 43 {
                let text = copy_range(buf, lp, le);
                Decoded::Complete(Frame::Simple(text), j + 3)
            } else if m == 45 {
                let text = copy_range(buf, lp, le);
                Decoded::Complete(Frame::Error(text), j + 3)
            } else if m == 58 {
                match parse_decimal(buf, lp, le) {
                    Some(n) => Decoded::Complete(Frame::Integer(n), j + 3),
                    None => Decoded::Malformed,
                }
            } else if m == 36 {
                if j == 2 && buf[lp] == 45 && buf[lp + 1] == 49 {
                    proof {
                        assert(line =~= seq![45u8, 49u8]);
                    }
                    Decoded::Complete(Frame::Null, j + 3)
                } else {
                    proof {
                        if line == seq![45u8, 49u8] {
                            assert(line.len() == 2 && line[0] == 45 && line[1] == 49);
                            assert(buf@[lp as int] == 45 && buf@[lp + 1] == 49);
                            assert(false);
                        }
                    }
                    match parse_decimal(buf, lp, le) {
                        None => Decoded::Malformed,
                        Some(len) => {
                            let rem = buf.len() - (le + 2);
                            if (rem as u64) < len || ((rem as u64) - len) < 2 {
                                assert(s.len() < 3 + j as int + len + 2);
                                Decoded::Incomplete
                            } else {
                                let lenu = len as usize;
                                let pstart = le + 2;
                                let pend = pstart + lenu;
                                proof {
                                    assert(s.len() >= 3 + j as int + len + 2);
                                    assert(s[3 + j as int + len] == buf@[pend as int]);
                                    assert(s[3 + j as int + len + 1] == buf@[pend + 1]);
                                }
                                if buf[pend] == 13 && buf[pend + 1] == 10 {
                                    let payload = copy_range(buf, pstart, pend);
                                    proof {
                                        assert(payload@ =~= s.subrange(
                                            3 + j as int,
                                            3 + j as int + len,
                                        ));
                                    }
                                    Decoded::Complete(Frame::Bulk(payload), j + 5 + lenu)
                                } else {
                                    Decoded::Malformed
                                }
                            }
                        },
                    }
                }
            } else {
                if j == 2 && buf[lp] == 45 && buf[lp + 1] == 49 {
                    proof {
                        assert(line =~= seq![45u8, 49u8]);
                    }
                    Decoded::Complete(Frame::Null, j + 3)
                } else {
                    proof {
                        if line == seq![45u8, 49u8] {
                            assert(line.len() == 2 && line[0] == 45 && line[1] == 49);
                            assert(buf@[lp as int] == 45 && buf@[lp + 1] == 49);
                            assert(false);
                        }
                    }
                    match parse_decimal(buf, lp, le) {
                        None => Decoded::Malformed,
                        Some(n) => {
                            let start = le + 2;
                            proof {
                                assert(s.skip(3 + j as int) =~= buf@.skip(start as int));
                            }
                            match decode_seq_at(buf, start, n) {
                                DecodedSeq::Incomplete => Decoded::Incomplete,
                                DecodedSeq::Malformed => Decoded::Malformed,
                                DecodedSeq::Complete(items, used2) => {
                                    proof {
                                        let fv = frame_view(Frame::Array(items));
                                        assert(fv->Array_0 =~= frames_view(items@));
                                    }
                                    Decoded::Complete(Frame::Array(items), j + 3 + used2)
                                },
                            }
                        },
                    }
                }
            }
        },
    }
}

/// Decodes `n` consecutive frames starting at `pos`.
pub fn decode_seq_at(buf: &Vec<u8>, pos: usize, n: u64) -> (r: DecodedSeq)
    requires
        pos <= buf@.len(),
    ensures
        decode_seq_matches(r, buf@.skip(pos as int), n as nat),
    decreases buf@.len() - pos, n,
{
    let ghost s = buf@.skip(pos as int);
    if n == 0 {
        let items: Vec<Frame> = Vec::new();
        proof {
            assert(frames_view(items@) =~= Seq::<FrameV>::empty());
        }
        return DecodedSeq::Complete(items, 0);
    }
    let buf_len = buf.len();
    match decode_at(buf, pos) {
        Decoded::Incomplete => DecodedSeq::Incomplete,
        Decoded::Malformed => DecodedSeq::Malformed,
        Decoded::Complete(f, used) => {
            proof {
                assert(buf@.len() == buf_len as int);
                assert(s.len() == buf@.len() - pos);
                assert(pos + used <= buf@.len());
                assert(s.skip(used as int) =~= buf@.skip(pos + used));
            }
            match decode_seq_at(buf, pos + used, n - 1) {
                DecodedSeq::Incomplete => DecodedSeq::Incomplete,
                DecodedSeq::Malformed => DecodedSeq::Malformed,
                DecodedSeq::Complete(items, used2) => {
                    proof {
                        assert(used2 <= buf@.len() - pos - used);
                    }
                    let ghost tail = frames_view(items@);
                    let mut items = items;
                    items.insert(0, f);
                    proof {
                        assert(frames_view(items@) =~= seq![frame_view(f)] + tail);
                    }
                    DecodedSeq::Complete(items, used + used2)
                },
            }
        },
    }
}

/// Attempts to decode one frame from the front of `buf`.
pub fn decode(buf: &Vec<u8>) -> (r: Decoded)
    ensures
        decode_matches(r, buf@),
{
    proof {
        assert(buf@.skip(0) =~= buf@);
    }
    decode_at(buf, 0)
}

proof fn lemma_digits_no_crlf(s: Seq<u8>)
    requires
        all_digits(s),
    ensures
        forall|i: int| 0 <= i < s.len() ==> s[i] != 13 && s[i] != 10,
{
    assert forall|i: int| 0 <= i < s.len() implies s[i] != 13 && s[i] != 10 by {
        assert(crate::util::is_digit(s[i]));
    }
}

/// A line without a line break, terminated by one, is found whole.
proof fn lemma_find_crlf_line(line: Seq<u8>, rest: Seq<u8>)
    requires
        forall|i: int| 0 <= i < line.len() ==> line[i] != 13 && line[i] != 10,
    ensures
        find_crlf(line + crlf() + rest) == Some(line.len() as nat),
{
    let s = line + crlf() + rest;
    assert(crlf_at(s, line.len() as int));
    assert forall|k: int| 0 <= k < line.len() implies !#[trigger] crlf_at(s, k) by {
        assert(s[k] == line[k]);
    }
    lemma_find_crlf_witness(s, line.len() as int);
}

/// A proper prefix of a line and its terminator holds no line break pair.
proof fn lemma_find_crlf_line_prefix(line: Seq<u8>, i: int)
    requires
        forall|i: int| 0 <= i < line.len() ==> line[i] != 13 && line[i] != 10,
        0 <= i <= line.len() + 1,
    ensures
        find_crlf((line + crlf()).take(i)) == None::<nat>,
{
    let p = (line + crlf()).take(i);
    assert forall|k: int| 0 <= k < p.len() - 1 implies !#[trigger] crlf_at(p, k) by {
        if k < line.len() {
            assert(p[k] == line[k]);
        } else {
            assert(k == line.len() && k + 1 >= p.len());
        }
    }
    lemma_find_crlf_none(p);
}

proof fn lemma_encode_min_len(v: FrameV)
    ensures
        spec_encode(v).len() >= 3,
{
    match v {
        FrameV::Integer(n) => lemma_dec_rep_digits(n as nat),
        FrameV::Bulk(b) => lemma_dec_rep_digits(b.len()),
        FrameV::Array(elems) => lemma_dec_rep_digits(elems.len()),
        _ => {},
    }
}

/// Round trip: the encoding of a well-formed frame, followed by any
/// further bytes, decodes to exactly that frame, consuming exactly the
/// encoding.
#[verifier::rlimit(100)]
pub proof fn lemma_decode_encode(v: FrameV, rest: Seq<u8>)
    requires
        wf(v),
    ensures
        spec_decode(spec_encode(v) + rest) == DecodedV::Complete(v, spec_encode(v).len() as int),
    decreases v,
{
    let s = spec_encode(v) + rest;
    match v {
        FrameV::Simple(text) => {
            assert(s[0] == 43);
            assert(s.drop_first() =~= text + crlf() + (rest));
            lemma_find_crlf_line(text, rest);
            assert(s.subrange(1, 1 + text.len() as int) =~= text);
        },
        FrameV::Error(text) => {
            assert(s[0] == 45);
            assert(s.drop_first() =~= text + crlf() + (rest));
            lemma_find_crlf_line(text, rest);
            assert(s.subrange(1, 1 + text.len() as int) =~= text);
        },
        FrameV::Integer(n) => {
            let d = dec_rep(n as nat);
            lemma_dec_rep_digits(n as nat);
            lemma_dec_rep_val(n as nat);
            lemma_digits_no_crlf(d);
            assert(s[0] == 58);
            assert(s.drop_first() =~= d + crlf() + (rest));
            lemma_find_crlf_line(d, rest);
            assert(s.subrange(1, 1 + d.len() as int) =~= d);
            assert(parse_dec(d) == Some(n));
        },
        FrameV::Bulk(b) => {
            let d = dec_rep(b.len());
            lemma_dec_rep_digits(b.len());
            lemma_dec_rep_val(b.len());
            lemma_digits_no_crlf(d);
            assert(s[0] == 36);
            assert(s.drop_first() =~= d + crlf() + (b + crlf() + rest));
            lemma_find_crlf_line(d, b + crlf() + rest);
            let line = s.subrange(1, 1 + d.len() as int);
            assert(line =~= d);
            assert(line[0] != 45);
            assert(parse_dec(line) == Some(b.len() as u64));
            let after = 3 + d.len() as int;
            let len = b.len() as int;
            assert(s.len() >= after + len + 2);
            assert(s[after + len] == 13 && s[after + len + 1] == 10);
            assert(s.subrange(after, after + len) =~= b);
        },
        FrameV::Null => {
            assert(s[0] == 36);
            let line = seq![45u8, 49u8];
            assert(s.drop_first() =~= line + crlf() + rest);
            assert forall|i: int| 0 <= i < line.len() implies line[i] != 13 && line[i] != 10 by {}
            lemma_find_crlf_line(line, rest);
            assert(s.subrange(1, 3) =~= line);
        },
        FrameV::Array(elems) => {
            let d = dec_rep(elems.len());
            lemma_dec_rep_digits(elems.len());
            lemma_dec_rep_val(elems.len());
            lemma_digits_no_crlf(d);
            assert(s[0] == 42);
            let tail = spec_encode_seq(elems) + rest;
            assert(s.drop_first() =~= d + crlf() + tail);
            lemma_find_crlf_line(d, tail);
            let line = s.subrange(1, 1 + d.len() as int);
            assert(line =~= d);
            assert(line[0] != 45);
            assert(parse_dec(line) == Some(elems.len() as u64));
            let after = 3 + d.len() as int;
            assert(after <= s.len());
            assert(s.skip(after) =~= spec_encode_seq(elems) + rest);
            lemma_decode_encode_seq(elems, rest);
        },
    }
}

/// Round trip for a run of frames: their concatenated encodings decode
/// back, element by element.
pub proof fn lemma_decode_encode_seq(elems: Seq<FrameV>, rest: Seq<u8>)
    requires
        wf_seq(elems),
    ensures
        spec_decode_seq(spec_encode_seq(elems) + rest, elems.len()) == DecodedSeqV::Complete(
            elems,
            spec_encode_seq(elems).len() as int,
        ),
    decreases elems,
{
    if elems.len() == 0 {
        assert(spec_encode_seq(elems) + rest =~= rest);
        assert(spec_decode_seq(rest, 0) == DecodedSeqV::Complete(Seq::<FrameV>::empty(), 0));
        assert(elems =~= Seq::<FrameV>::empty());
    } else {
        let e0 = elems[0];
        let l0 = spec_encode(e0).len() as int;
        let s = spec_encode_seq(elems) + rest;
        let tail = spec_encode_seq(elems.drop_first()) + rest;
        assert(s =~= spec_encode(e0) + tail);
        lemma_decode_encode(e0, tail);
        lemma_encode_min_len(e0);
        assert(spec_decode(s) == DecodedV::Complete(e0, l0));
        assert(0 < l0 <= s.len());
        assert(s.skip(l0) =~= tail);
        lemma_decode_encode_seq(elems.drop_first(), rest);
        assert(seq![e0] + elems.drop_first() =~= elems);
    }
}

/// Partial delivery: any proper prefix of an encoding asks for more
/// bytes; no frame and no error is reported early.
#[verifier::rlimit(100)]
pub proof fn lemma_decode_prefix(v: FrameV, i: int)
    requires
        wf(v),
        0 <= i < spec_encode(v).len(),
    ensures
        spec_decode(spec_encode(v).take(i)) == DecodedV::Incomplete,
    decreases v,
{
    let e = spec_encode(v);
    let p = e.take(i);
    if i == 0 {
        assert(p.len() == 0);
    } else {
        match v {
            FrameV::Simple(text) => {
                assert(p[0] == 43);
                assert(p.drop_first() =~= (text + crlf()).take(i - 1));
                lemma_find_crlf_line_prefix(text, i - 1);
            },
            FrameV::Error(text) => {
                assert(p[0] == 45);
                assert(p.drop_first() =~= (text + crlf()).take(i - 1));
                lemma_find_crlf_line_prefix(text, i - 1);
            },
            FrameV::Integer(n) => {
                let d = dec_rep(n as nat);
                lemma_dec_rep_digits(n as nat);
                lemma_digits_no_crlf(d);
                assert(p[0] == 58);
                assert(p.drop_first() =~= (d + crlf()).take(i - 1));
                lemma_find_crlf_line_prefix(d, i - 1);
            },
            FrameV::Null => {
                let line = seq![45u8, 49u8];
                assert(p[0] == 36);
                assert(p.drop_first() =~= (line + crlf()).take(i - 1));
                assert forall|k: int| 0 <= k < line.len() implies line[k] != 13 && line[k] != 10
                    by {}
                lemma_find_crlf_line_prefix(line, i - 1);
            },
            FrameV::Bulk(b) => {
                let d = dec_rep(b.len());
                lemma_dec_rep_digits(b.len());
                lemma_dec_rep_val(b.len());
                lemma_digits_no_crlf(d);
                assert(p[0] == 36);
                let hl = 1 + d.len() as int + 2;
                if i < hl {
                    assert(p.drop_first() =~= (d + crlf()).take(i - 1));
                    lemma_find_crlf_line_prefix(d, i - 1);
                } else {
                    assert(p.drop_first() =~= d + crlf() + (b + crlf()).take(i - hl));
                    lemma_find_crlf_line(d, (b + crlf()).take(i - hl));
                    let line = p.subrange(1, 1 + d.len() as int);
                    assert(line =~= d);
                    assert(line[0] != 45);
                    assert(parse_dec(line) == Some(b.len() as u64));
                    let after = 3 + d.len() as int;
                    assert(p.len() == i);
                    assert(p.len() < after + b.len() + 2);
                }
            },
            FrameV::Array(elems) => {
                let d = dec_rep(elems.len());
                lemma_dec_rep_digits(elems.len());
                lemma_dec_rep_val(elems.len());
                lemma_digits_no_crlf(d);
                assert(p[0] == 42);
                let hl = 1 + d.len() as int + 2;
                if i < hl {
                    assert(p.drop_first() =~= (d + crlf()).take(i - 1));
                    lemma_find_crlf_line_prefix(d, i - 1);
                } else {
                    let x = i - hl;
                    assert(p.drop_first() =~= d + crlf() + spec_encode_seq(elems).take(x));
                    lemma_find_crlf_line(d, spec_encode_seq(elems).take(x));
                    let line = p.subrange(1, 1 + d.len() as int);
                    assert(line =~= d);
                    assert(line[0] != 45);
                    assert(parse_dec(line) == Some(elems.len() as u64));
                    let after = 3 + d.len() as int;
                    assert(after <= p.len());
                    assert(p.skip(after) =~= spec_encode_seq(elems).take(x));
                    lemma_decode_prefix_seq(elems, x);
                }
            },
        }
    }
}

/// Partial delivery for a run of frames: a proper prefix of their
/// concatenated encodings never completes.
pub proof fn lemma_decode_prefix_seq(elems: Seq<FrameV>, x: int)
    requires
        wf_seq(elems),
        0 <= x < spec_encode_seq(elems).len(),
    ensures
        spec_decode_seq(spec_encode_seq(elems).take(x), elems.len()) == DecodedSeqV::Incomplete,
    decreases elems,
{
    assert(elems.len() > 0);
    let e0 = elems[0];
    let l0 = spec_encode(e0).len() as int;
    let tail = spec_encode_seq(elems.drop_first());
    let p = spec_encode_seq(elems).take(x);
    if x < l0 {
        assert(p =~= spec_encode(e0).take(x));
        if x == 0 {
            assert(p.len() == 0);
            assert(spec_decode(p) == DecodedV::Incomplete);
        } else {
            lemma_decode_prefix(e0, x);
        }
    } else {
        assert(p =~= spec_encode(e0) + tail.take(x - l0));
        lemma_decode_encode(e0, tail.take(x - l0));
        lemma_encode_min_len(e0);
        assert(spec_decode(p) == DecodedV::Complete(e0, l0));
        assert(0 < l0 <= p.len());
        assert(p.skip(l0) =~= tail.take(x - l0));
        assert(x - l0 < tail.len());
        lemma_decode_prefix_seq(elems.drop_first(), x - l0);
    }
}

} // verus!
