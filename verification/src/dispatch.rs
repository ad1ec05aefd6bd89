//! The per-connection command dispatcher: a session is idle until a
//! subscribe command attaches it to channels; while subscribed, only
//! subscription commands are accepted, and published messages flow to
//! the session as unsolicited message frames.

use vstd::prelude::*;
use crate::cmd::{Command, CommandV};
use crate::db::{Db, SubV, subs_has_id, spec_unsub};
use crate::frame::{Frame, FrameV, frame_view};
use crate::util::{bytes_eq, dup};

verus! {

/// One connection's subscription state: its connection id and the
/// channels it is attached to, each at most once.
pub struct Session {
    id: u64,
    channels: Vec<Vec<u8>>,
}

pub open spec fn list_view(cs: Seq<Vec<u8>>) -> Seq<Seq<u8>> {
    Seq::new(cs.len(), |i: int| cs[i]@)
}

pub open spec fn list_has(cs: Seq<Seq<u8>>, ch: Seq<u8>) -> bool {
    exists|i: int| 0 <= i < cs.len() && cs[i] == ch
}

pub open spec fn list_unique(cs: Seq<Seq<u8>>) -> bool {
    forall|i: int, j: int| 0 <= i < j < cs.len() ==> cs[i] != cs[j]
}

pub open spec fn list_idx(cs: Seq<Seq<u8>>, ch: Seq<u8>) -> int {
    choose|i: int| 0 <= i < cs.len() && cs[i] == ch
}

/// The list without `ch`, when present.
pub open spec fn list_remove(cs: Seq<Seq<u8>>, ch: Seq<u8>) -> Seq<Seq<u8>> {
    if list_has(cs, ch) {
        cs.remove(list_idx(cs, ch))
    } else {
        cs
    }
}

/// The session agrees with the registry: its id is attached to
/// exactly the channels it records.
pub open spec fn session_ok(s: Session, c: Map<Seq<u8>, Seq<SubV>>) -> bool {
    &&& list_unique(s.chans())
    &&& forall|i: int|
        0 <= i < s.chans().len() ==> c.contains_key(#[trigger] s.chans()[i])
    &&& forall|ch: Seq<u8>|
        #[trigger] c.contains_key(ch) ==> (subs_has_id(c[ch], s.spec_id()) <==> list_has(
            s.chans(),
            ch,
        ))
}

impl Session {
    pub closed spec fn spec_id(self) -> u64 {
        self.id
    }

    pub closed spec fn chans(self) -> Seq<Seq<u8>> {
        list_view(self.channels@)
    }

    /// A fresh session for a connection with a process-unique id.
    pub fn new(id: u64) -> (r: Session)
        ensures
            r.spec_id() == id,
            r.chans() == Seq::<Seq<u8>>::empty(),
    {
        let r = Session { id, channels: Vec::new() };
        proof {
            assert(r.chans() =~= Seq::<Seq<u8>>::empty());
        }
        r
    }

    /// The session is subscribed to at least one channel.
    pub fn is_subscribed(&self) -> (r: bool)
        ensures
            r == (self.chans().len() > 0),
    {
        self.channels.len() > 0
    }

    pub fn subscribed_count(&self) -> (n: usize)
        ensures
            n == self.chans().len(),
    {
        self.channels.len()
    }

    fn index_of_channel(&self, ch: &Vec<u8>) -> (r: Option<usize>)
        ensures
            match r {
                Some(i) => i < self.chans().len() && self.chans()[i as int] == ch@ && list_has(
                    self.chans(),
                    ch@,
                ),
                None => !list_has(self.chans(), ch@),
            },
    {
        let mut i: usize = 0;
        while i < self.channels.len()
            invariant
                i <= self.channels@.len(),
                forall|t: int| 0 <= t < i ==> (#[trigger] list_view(self.channels@)[t]) != ch@,
            decreases self.channels@.len() - i,
        {
            if bytes_eq(&self.channels[i], ch) {
                proof {
                    assert(list_view(self.channels@)[i as int] == ch@);
                }
                return Some(i);
            }
            i = i + 1;
        }
        proof {
            if list_has(self.chans(), ch@) {
                let t = choose|t: int| 0 <= t < self.chans().len() && self.chans()[t] == ch@;
                assert(list_view(self.channels@)[t] == ch@);
            }
        }
        None
    }

    fn has_channel(&self, ch: &Vec<u8>) -> (r: bool)
        ensures
            r == list_has(self.chans(), ch@),
    {
        match self.index_of_channel(ch) {
            Some(_) => true,
            None => false,
        }
    }

    /// Attaches the session to one more channel; already-subscribed
    /// channels are left alone.
    pub fn subscribe_one(&mut self, db: &mut Db, channel: Vec<u8>)
        requires
            old(self).chans().len() < usize::MAX,
            old(db).wf(),
            session_ok(*old(self), old(db).chans()),
        ensures
            final(db).wf(),
            final(self).spec_id() == old(self).spec_id(),
            session_ok(*final(self), final(db).chans()),
            final(db).store() == old(db).store(),
            if list_has(old(self).chans(), channel@) {
                final(db).chans() == old(db).chans() && final(self).chans() == old(self).chans()
            } else {
                final(self).chans() == old(self).chans().push(channel@) && final(db).chans()
                    == old(db).chans().insert(
                    channel@,
                    (if old(db).chans().contains_key(channel@) {
                        old(db).chans()[channel@]
                    } else {
                        Seq::empty()
                    }).push(SubV { id: old(self).spec_id(), pending: Seq::empty() }),
                )
            },
    {
        if self.has_channel(&channel) {
            return;
        }
        proof {
            if old(db).chans().contains_key(channel@) {
                assert(!subs_has_id(old(db).chans()[channel@], self.id));
            }
        }
        let name = dup(&channel);
        db.subscribe(channel, self.id);
        self.channels.push(name);
        proof {
            let ns = self.chans();
            let os = old(self).chans();
            let ch = name@;
            assert(ns =~= os.push(ch));
            let c2 = db.chans();
            assert forall|i: int, j: int| 0 <= i < j < ns.len() implies ns[i] != ns[j] by {
                if j == os.len() {
                    if os[i] == ch {
                        assert(list_has(os, ch));
                    }
                }
            }
            assert forall|i: int| 0 <= i < ns.len() implies c2.contains_key(
                #[trigger] ns[i],
            ) by {
                if i < os.len() {
                    assert(c2.contains_key(os[i]));
                }
            }
            assert forall|chx: Seq<u8>| #[trigger] c2.contains_key(chx) implies (subs_has_id(
                c2[chx],
                self.spec_id(),
            ) <==> list_has(ns, chx)) by {
                if chx == ch {
                    assert(c2[chx][c2[chx].len() - 1].id == self.spec_id());
                    assert(subs_has_id(c2[chx], self.spec_id()));
                    assert(ns[os.len() as int] == ch);
                    assert(list_has(ns, chx));
                } else {
                    assert(c2[chx] == old(db).chans()[chx]);
                    if list_has(ns, chx) {
                        let t = choose|t: int| 0 <= t < ns.len() && ns[t] == chx;
                        assert(t < os.len() && os[t] == chx);
                        assert(list_has(os, chx));
                    }
                    if list_has(os, chx) {
                        let t = choose|t: int| 0 <= t < os.len() && os[t] == chx;
                        assert(ns[t] == chx);
                        assert(list_has(ns, chx));
                    }
                    if subs_has_id(c2[chx], self.spec_id()) {
                        assert(old(db).chans().contains_key(chx));
                    }
                }
            }
        }
    }
    /// Detaches the session from one channel, in the session and in
    /// the registry.
    pub fn unsubscribe_one(&mut self, db: &mut Db, channel: &Vec<u8>)
        requires
            old(db).wf(),
            session_ok(*old(self), old(db).chans()),
        ensures
            final(db).wf(),
            final(self).spec_id() == old(self).spec_id(),
            session_ok(*final(self), final(db).chans()),
            final(db).store() == old(db).store(),
            final(db).chans() == spec_unsub(old(db).chans(), channel@, old(self).spec_id()),
            final(self).chans() == list_remove(old(self).chans(), channel@),
    {
        let ghost c0 = db.chans();
        let ghost os = self.chans();
        proof {
            if c0.contains_key(channel@) {
                db.lemma_chan_ids_unique(channel@);
            }
        }
        db.unsubscribe(channel, self.id);
        let ghost c2 = db.chans();
        let idx = self.index_of_channel(channel);
        if let Some(found) = idx {
            proof {
                assert(os[found as int] == channel@);
                assert(list_has(os, channel@));
            }
            let ghost pvec = self.channels@;
            self.channels.remove(found);
            proof {
                let ns = self.chans();
                assert(ns =~= os.remove(found as int));
                let fi = list_idx(os, channel@);
                assert(0 <= fi < os.len() && os[fi] == channel@);
                if fi != found {
                    assert(os[fi] != os[found as int]);
                }
                assert(fi == found);
                os.remove_ensures(found as int);
                assert forall|a: int, b: int| 0 <= a < b < ns.len() implies ns[a] != ns[b] by {
                    let a2 = if a < found { a } else { a + 1 };
                    let b2 = if b < found { b } else { b + 1 };
                    assert(ns[a] == os[a2] && ns[b] == os[b2]);
                }
                assert forall|ch: Seq<u8>| ch != channel@ implies list_has(ns, ch) == list_has(
                    os,
                    ch,
                ) by {
                    if list_has(ns, ch) {
                        let t = choose|t: int| 0 <= t < ns.len() && ns[t] == ch;
                        let t2 = if t < found { t } else { t + 1 };
                        assert(os[t2] == ch);
                        assert(list_has(os, ch));
                    }
                    if list_has(os, ch) {
                        let t = choose|t: int| 0 <= t < os.len() && os[t] == ch;
                        assert(t != found);
                        let t2 = if t < found { t } else { t - 1 };
                        assert(ns[t2] == ch);
                        assert(list_has(ns, ch));
                    }
                }
                if list_has(ns, channel@) {
                    let t = choose|t: int| 0 <= t < ns.len() && ns[t] == channel@;
                    let t2 = if t < found { t } else { t + 1 };
                    assert(os[t2] == channel@ && t2 != found);
                    assert(os[t2] != os[found as int]);
                }
                lemma_unsub_session(c0, c2, os, ns, channel@, self.id);
            }
        } else {
            proof {
                assert(!list_has(os, channel@));
                let ns = self.chans();
                assert(ns =~= os);
                lemma_unsub_session(c0, c2, os, ns, channel@, self.id);
            }
        }
    }

    /// Unsubscribe-all: detaches the session from every channel it is
    /// subscribed to; afterwards no channel delivers to this session.
    pub fn unsubscribe_all(&mut self, db: &mut Db)
        requires
            old(db).wf(),
            session_ok(*old(self), old(db).chans()),
        ensures
            final(db).wf(),
            final(self).spec_id() == old(self).spec_id(),
            session_ok(*final(self), final(db).chans()),
            final(db).store() == old(db).store(),
            final(self).chans().len() == 0,
            final(db).chans() == unsub_all_fold(
                old(db).chans(),
                old(self).chans(),
                old(self).spec_id(),
            ),
            forall|ch: Seq<u8>|
                #[trigger] final(db).chans().contains_key(ch) ==> !subs_has_id(
                    final(db).chans()[ch],
                    old(self).spec_id(),
                ),
    {
        while self.channels.len() > 0
            invariant
                db.wf(),
                session_ok(*self, db.chans()),
                self.spec_id() == old(self).spec_id(),
                db.store() == old(db).store(),
                unsub_all_fold(old(db).chans(), old(self).chans(), self.spec_id())
                    == unsub_all_fold(db.chans(), self.chans(), self.spec_id()),
            decreases self.channels@.len(),
        {
            let last = self.channels.len() - 1;
            let ch = dup(&self.channels[last]);
            proof {
                assert(list_view(self.channels@)[last as int] == ch@);
                assert(self.chans().last() == ch@);
                assert(list_has(self.chans(), ch@));
            }
            let ghost cs = self.chans();
            let ghost cprev = db.chans();
            self.unsubscribe_one(db, &ch);
            proof {
                let fi = list_idx(cs, ch@);
                assert(0 <= fi < cs.len() && cs[fi] == ch@);
                if fi != cs.len() - 1 {
                    assert(cs[fi] != cs[cs.len() - 1]);
                }
                assert(fi == cs.len() - 1);
                assert(cs.remove(cs.len() - 1) =~= cs.drop_last());
                assert(self.chans() == cs.drop_last());
                assert(unsub_all_fold(cprev, cs, self.spec_id()) == unsub_all_fold(
                    spec_unsub(cprev, ch@, self.spec_id()),
                    cs.drop_last(),
                    self.spec_id(),
                ));
            }
        }
        proof {
            assert(self.chans().len() == 0);
            assert forall|ch: Seq<u8>| #[trigger] db.chans().contains_key(ch) implies !subs_has_id(
                db.chans()[ch],
                self.spec_id(),
            ) by {
                if subs_has_id(db.chans()[ch], self.spec_id()) {
                    assert(list_has(self.chans(), ch));
                    let t = choose|t: int| 0 <= t < self.chans().len() && self.chans()[t] == ch;
                }
            }
        }
    }

    /// Hands the session its oldest undelivered message on any of its
    /// channels, shaped as an unsolicited message frame.
    pub fn poll_message(&mut self, db: &mut Db) -> (r: Option<Frame>)
        requires
            old(db).wf(),
            session_ok(*old(self), old(db).chans()),
        ensures
            final(db).wf(),
            *final(self) == *old(self),
            session_ok(*final(self), final(db).chans()),
            final(db).store() == old(db).store(),
            match r {
                None => final(db).chans() == old(db).chans() && (forall|i: int|
                    0 <= i < old(self).chans().len() ==> no_message_waiting(
                        old(db).chans(),
                        #[trigger] old(self).chans()[i],
                        old(self).spec_id(),
                    )),
                Some(f) => exists|i: int|
                    0 <= i < old(self).chans().len() && #[trigger] message_frame_for(
                        frame_view(f),
                        old(db).chans(),
                        old(self).chans()[i],
                        old(self).spec_id(),
                    ) && final(db).chans() == pop_pending(
                        old(db).chans(),
                        old(self).chans()[i],
                        old(self).spec_id(),
                    ),
            },
    {
        let mut i: usize = 0;
        while i < self.channels.len()
            invariant
                db.wf(),
                *self == *old(self),
                session_ok(*self, db.chans()),
                i <= self.channels@.len(),
                db.store() == old(db).store(),
                db.chans() == old(db).chans(),
                forall|t: int|
                    0 <= t < i ==> no_message_waiting(
                        db.chans(),
                        #[trigger] self.chans()[t],
                        self.spec_id(),
                    ),
            decreases self.channels@.len() - i,
        {
            let ch = &self.channels[i];
            proof {
                assert(list_view(self.channels@)[i as int] == ch@);
                assert(list_has(self.chans(), ch@));
            }
            match db.receive(ch, self.id) {
                None => {
                    proof {
                        let c = db.chans();
                        let chv = self.chans()[i as int];
                        assert(c.contains_key(chv));
                        assert(subs_has_id(c[chv], self.spec_id()));
                        assert(no_message_waiting(c, chv, self.spec_id()));
                    }
                    i = i + 1;
                },
                Some(m) => {
                    let ghost iv = i as int;
                    proof {
                        let c0m = old(db).chans();
                        let c2m = db.chans();
                        let chv = old(self).chans()[iv];
                        let sq = c0m[chv];
                        let t = crate::db::sub_idx(sq, self.spec_id());
                        let upd = sq.update(t, SubV { id: self.spec_id(), pending: sq[t].pending.drop_first() });
                        assert(c2m == c0m.insert(chv, upd));
                        assert forall|j: int| 0 <= j < upd.len() implies (#[trigger] upd[j].id) == sq[j].id by {}
                        assert forall|ii: int| 0 <= ii < self.chans().len() implies c2m.contains_key(
                            #[trigger] self.chans()[ii],
                        ) by {
                            assert(c0m.contains_key(self.chans()[ii]));
                        }
                        assert forall|chx: Seq<u8>| #[trigger] c2m.contains_key(chx) implies (
                        subs_has_id(c2m[chx], self.spec_id()) <==> list_has(
                            self.chans(),
                            chx,
                        )) by {
                            if chx == chv {
                                if subs_has_id(upd, self.spec_id()) {
                                    let w = choose|w: int|
                                        0 <= w < upd.len() && #[trigger] upd[w].id == self.spec_id();
                                    assert(sq[w].id == self.spec_id());
                                    assert(subs_has_id(sq, self.spec_id()));
                                }
                                if subs_has_id(sq, self.spec_id()) {
                                    let w = choose|w: int|
                                        0 <= w < sq.len() && #[trigger] sq[w].id == self.spec_id();
                                    assert(upd[w].id == self.spec_id());
                                    assert(subs_has_id(upd, self.spec_id()));
                                }
                                assert(c0m.contains_key(chx));
                            } else {
                                assert(c2m[chx] == c0m[chx]);
                                assert(c0m.contains_key(chx));
                            }
                        }
                    }
                    let mut items: Vec<Frame> = Vec::new();
                    let mut verb: Vec<u8> = Vec::new();
                    verb.push(109);
                    verb.push(101);
                    verb.push(115);
                    verb.push(115);
                    verb.push(97);
                    verb.push(103);
                    verb.push(101);
                    proof {
                        assert(verb@ =~= lit_message());
                    }
                    items.push(Frame::Bulk(verb));
                    items.push(Frame::Bulk(dup(ch)));
                    items.push(Frame::Bulk(m));
                    let f = Frame::Array(items);
                    proof {
                        assert(frame_view(items@[0]) == FrameV::Bulk(lit_message()));
                        assert(frame_view(items@[1]) == FrameV::Bulk(
                            old(self).chans()[iv],
                        ));
                        assert(frame_view(f)->Array_0 =~= seq![
                            FrameV::Bulk(lit_message()),
                            FrameV::Bulk(old(self).chans()[iv]),
                            frame_view(items@[2]),
                        ]);
                        assert(message_frame_for(
                            frame_view(f),
                            old(db).chans(),
                            old(self).chans()[iv],
                            old(self).spec_id(),
                        ));
                    }
                    return Some(f);
                },
            }
        }
        None
    }
}

pub open spec fn lit_message() -> Seq<u8> {
    seq![109u8, 101u8, 115u8, 115u8, 97u8, 103u8, 101u8]
}

/// The subscriber's queue on `ch` is empty: there is nothing for this
/// session to be handed on that channel.
pub open spec fn no_message_waiting(c: Map<Seq<u8>, Seq<SubV>>, ch: Seq<u8>, id: u64) -> bool {
    c.contains_key(ch) && subs_has_id(c[ch], id) ==> c[ch][crate::db::sub_idx(
        c[ch],
        id,
    )].pending.len() == 0
}

/// The frame is the unsolicited delivery of the head of this
/// subscriber's queue on `ch`.
pub open spec fn message_frame_for(
    f: FrameV,
    c: Map<Seq<u8>, Seq<SubV>>,
    ch: Seq<u8>,
    id: u64,
) -> bool {
    &&& c.contains_key(ch)
    &&& subs_has_id(c[ch], id)
    &&& c[ch][crate::db::sub_idx(c[ch], id)].pending.len() > 0
    &&& f == FrameV::Array(
        seq![
            FrameV::Bulk(lit_message()),
            FrameV::Bulk(ch),
            FrameV::Bulk(c[ch][crate::db::sub_idx(c[ch], id)].pending[0]),
        ],
    )
}

/// The registry after one delivery: the head of that subscriber's
/// queue is gone, everything else stands.
pub open spec fn pop_pending(c: Map<Seq<u8>, Seq<SubV>>, ch: Seq<u8>, id: u64) -> Map<
    Seq<u8>,
    Seq<SubV>,
> {
    let s = c[ch];
    let t = crate::db::sub_idx(s, id);
    c.insert(ch, s.update(t, SubV { id, pending: s[t].pending.drop_first() }))
}

/// Detaching one id keeps every other session's view of the registry,
/// and the present session's, consistent.
proof fn lemma_unsub_session(
    c0: Map<Seq<u8>, Seq<SubV>>,
    c2: Map<Seq<u8>, Seq<SubV>>,
    os: Seq<Seq<u8>>,
    ns: Seq<Seq<u8>>,
    channel: Seq<u8>,
    id: u64,
)
    requires
        c2 == spec_unsub(c0, channel, id),
        c0.contains_key(channel) ==> ids_unique_of(c0[channel]),
        list_unique(ns),
        forall|i: int| 0 <= i < os.len() ==> c0.contains_key(#[trigger] os[i]),
        forall|ch: Seq<u8>|
            #[trigger] c0.contains_key(ch) ==> (subs_has_id(c0[ch], id) <==> list_has(os, ch)),
        !list_has(ns, channel),
        forall|ch: Seq<u8>| ch != channel ==> list_has(ns, ch) == list_has(os, ch),
    ensures
        list_unique(ns),
        forall|i: int| 0 <= i < ns.len() ==> c2.contains_key(#[trigger] ns[i]),
        forall|ch: Seq<u8>|
            #[trigger] c2.contains_key(ch) ==> (subs_has_id(c2[ch], id) <==> list_has(ns, ch)),
{
    if c0.contains_key(channel) && subs_has_id(c0[channel], id) {
        let s = c0[channel];
        let t = crate::db::sub_idx(s, id);
        assert(0 <= t < s.len() && s[t].id == id);
        let rest = s.remove(t);
        s.remove_ensures(t);
        assert forall|j: int| 0 <= j < rest.len() implies (#[trigger] rest[j].id) != id by {
            let j2 = if j < t { j } else { j + 1 };
            assert(rest[j] == s[j2]);
            if s[j2].id == id {
                assert(j2 != t);
                assert(s[j2].id != s[t].id);
            }
        }
        if subs_has_id(rest, id) {
            let w = crate::db::sub_idx(rest, id);
            assert(0 <= w < rest.len() && rest[w].id == id);
        }
        assert(!subs_has_id(rest, id));
    }
    assert forall|i: int| 0 <= i < ns.len() implies c2.contains_key(#[trigger] ns[i]) by {
        assert(ns[i] != channel);
        assert(list_has(ns, ns[i]));
        assert(list_has(os, ns[i]));
        let t = choose|t: int| 0 <= t < os.len() && os[t] == ns[i];
        assert(c0.contains_key(os[t]));
    }
    assert forall|ch: Seq<u8>| #[trigger] c2.contains_key(ch) implies (subs_has_id(c2[ch], id)
        <==> list_has(ns, ch)) by {
        if ch == channel {
        } else {
            assert(c2[ch] == c0[ch]);
            assert(c0.contains_key(ch));
        }
    }
}

/// Pairwise-distinct subscriber ids, restated here for the coupling
/// proof.
pub open spec fn ids_unique_of(subs: Seq<SubV>) -> bool {
    crate::db::ids_unique(subs)
}

/// One step of subscribing: a channel the session already holds is
/// left alone, a new one is attached in the registry and recorded.
pub open spec fn sub_step(
    c: Map<Seq<u8>, Seq<SubV>>,
    s: Seq<Seq<u8>>,
    ch: Seq<u8>,
    id: u64,
) -> (Map<Seq<u8>, Seq<SubV>>, Seq<Seq<u8>>) {
    if list_has(s, ch) {
        (c, s)
    } else {
        (
            c.insert(
                ch,
                (if c.contains_key(ch) {
                    c[ch]
                } else {
                    Seq::empty()
                }).push(SubV { id, pending: Seq::empty() }),
            ),
            s.push(ch),
        )
    }
}

/// Subscribing to a list of channels, first to last.
pub open spec fn sub_fold(
    c: Map<Seq<u8>, Seq<SubV>>,
    s: Seq<Seq<u8>>,
    list: Seq<Seq<u8>>,
    id: u64,
) -> (Map<Seq<u8>, Seq<SubV>>, Seq<Seq<u8>>)
    decreases list.len(),
{
    if list.len() == 0 {
        (c, s)
    } else {
        let st = sub_step(c, s, list[0], id);
        sub_fold(st.0, st.1, list.drop_first(), id)
    }
}

/// Unsubscribing from a list of channels, first to last.
pub open spec fn unsub_fold(
    c: Map<Seq<u8>, Seq<SubV>>,
    s: Seq<Seq<u8>>,
    list: Seq<Seq<u8>>,
    id: u64,
) -> (Map<Seq<u8>, Seq<SubV>>, Seq<Seq<u8>>)
    decreases list.len(),
{
    if list.len() == 0 {
        (c, s)
    } else {
        unsub_fold(
            spec_unsub(c, list[0], id),
            list_remove(s, list[0]),
            list.drop_first(),
            id,
        )
    }
}

/// Detaching from every subscribed channel, newest-recorded first:
/// the registry after an unsubscribe-all.
pub open spec fn unsub_all_fold(
    c: Map<Seq<u8>, Seq<SubV>>,
    s: Seq<Seq<u8>>,
    id: u64,
) -> Map<Seq<u8>, Seq<SubV>>
    decreases s.len(),
{
    if s.len() == 0 {
        c
    } else {
        unsub_all_fold(spec_unsub(c, s.last(), id), s.drop_last(), id)
    }
}

/// A fold over one more channel is the fold so far, stepped once.
proof fn lemma_sub_fold_snoc(
    c: Map<Seq<u8>, Seq<SubV>>,
    s: Seq<Seq<u8>>,
    l: Seq<Seq<u8>>,
    x: Seq<u8>,
    id: u64,
)
    ensures
        sub_fold(c, s, l.push(x), id) == ({
            let st = sub_fold(c, s, l, id);
            sub_step(st.0, st.1, x, id)
        }),
    decreases l.len(),
{
    if l.len() == 0 {
        assert(l.push(x)[0] == x);
        assert(l.push(x).drop_first() =~= Seq::<Seq<u8>>::empty());
        let st = sub_step(c, s, x, id);
        assert(sub_fold(st.0, st.1, Seq::<Seq<u8>>::empty(), id) == (st.0, st.1));
        assert(sub_fold(c, s, l, id) == (c, s));
    } else {
        assert(l.push(x)[0] == l[0]);
        assert(l.push(x).drop_first() =~= l.drop_first().push(x));
        let st1 = sub_step(c, s, l[0], id);
        lemma_sub_fold_snoc(st1.0, st1.1, l.drop_first(), x, id);
    }
}

proof fn lemma_unsub_fold_snoc(
    c: Map<Seq<u8>, Seq<SubV>>,
    s: Seq<Seq<u8>>,
    l: Seq<Seq<u8>>,
    x: Seq<u8>,
    id: u64,
)
    ensures
        unsub_fold(c, s, l.push(x), id) == ({
            let st = unsub_fold(c, s, l, id);
            (spec_unsub(st.0, x, id), list_remove(st.1, x))
        }),
    decreases l.len(),
{
    if l.len() == 0 {
        assert(l.push(x)[0] == x);
        assert(l.push(x).drop_first() =~= Seq::<Seq<u8>>::empty());
        assert(unsub_fold(
            spec_unsub(c, x, id),
            list_remove(s, x),
            Seq::<Seq<u8>>::empty(),
            id,
        ) == (spec_unsub(c, x, id), list_remove(s, x)));
        assert(unsub_fold(c, s, l, id) == (c, s));
    } else {
        assert(l.push(x)[0] == l[0]);
        assert(l.push(x).drop_first() =~= l.drop_first().push(x));
        lemma_unsub_fold_snoc(spec_unsub(c, l[0], id), list_remove(s, l[0]), l.drop_first(), x, id);
    }
}

/// The acknowledgement the handler sends for the `t`-th subscribed
/// channel: the verb, the channel, and how many channels the session
/// holds once that channel is attached.
pub open spec fn subscribe_ack(
    c0: Map<Seq<u8>, Seq<SubV>>,
    s0: Seq<Seq<u8>>,
    chs: Seq<Seq<u8>>,
    id: u64,
    t: int,
) -> FrameV {
    FrameV::Array(
        seq![
            FrameV::Bulk(crate::cmd::lit_subscribe()),
            FrameV::Bulk(chs[t]),
            FrameV::Integer(sub_fold(c0, s0, chs.take(t + 1), id).1.len() as u64),
        ],
    )
}

/// The acknowledgement for the `t`-th unsubscribed channel.
pub open spec fn unsubscribe_ack(
    c0: Map<Seq<u8>, Seq<SubV>>,
    s0: Seq<Seq<u8>>,
    chs: Seq<Seq<u8>>,
    id: u64,
    t: int,
) -> FrameV {
    FrameV::Array(
        seq![
            FrameV::Bulk(crate::cmd::lit_unsubscribe()),
            FrameV::Bulk(chs[t]),
            FrameV::Integer(unsub_fold(c0, s0, chs.take(t + 1), id).1.len() as u64),
        ],
    )
}

/// An error reply; the text names what went wrong: a malformed
/// command, an unknown verb, or a verb the subscribed state refuses.
fn error_frame(which: u8) -> (r: Frame)
    ensures
        frame_view(r) is Error,
{
    let msg: Vec<u8> = if which == 0 {
        vec![69u8, 82u8, 82u8, 32u8, 112u8, 114u8, 111u8, 116u8, 111u8, 99u8, 111u8, 108u8]
    } else if which == 1 {
        vec![69u8, 82u8, 82u8, 32u8, 117u8, 110u8, 107u8, 110u8, 111u8, 119u8, 110u8, 32u8,
            99u8, 111u8, 109u8, 109u8, 97u8, 110u8, 100u8]
    } else {
        vec![69u8, 82u8, 82u8, 32u8, 115u8, 117u8, 98u8, 115u8, 99u8, 114u8, 105u8, 98u8,
            101u8, 32u8, 109u8, 111u8, 100u8, 101u8]
    };
    Frame::Error(msg)
}

/// What the handler replies and does, for each command, given the
/// session's mode: in subscribed mode only the subscription verbs are
/// accepted, everything else is answered with an error frame and
/// leaves all state alone.
pub open spec fn handle_post(
    cv: CommandV,
    now: u64,
    db0: Db,
    s0: Session,
    db1: Db,
    s1: Session,
    replies: Seq<Frame>,
) -> bool {
    let subscribed = s0.chans().len() > 0;
    match cv {
        CommandV::Subscribe(chs) => replies.len() == chs.len() && (
        db1.chans(),
        s1.chans(),
        ) == sub_fold(db0.chans(), s0.chans(), chs, s0.spec_id()) && db1.store() == db0.store()
            && (forall|t: int|
            0 <= t < chs.len() ==> frame_view(#[trigger] replies[t]) == subscribe_ack(
                db0.chans(),
                s0.chans(),
                chs,
                s0.spec_id(),
                t,
            )),
        CommandV::Unsubscribe(chs) => if chs.len() == 0 {
            s1.chans().len() == 0 && db1.store() == db0.store() && db1.chans() == unsub_all_fold(
                db0.chans(),
                s0.chans(),
                s0.spec_id(),
            ) && (forall|ch: Seq<u8>|
                #[trigger] db1.chans().contains_key(ch) ==> !subs_has_id(
                    db1.chans()[ch],
                    s0.spec_id(),
                )) && replies.len() == 1 && frame_view(replies[0]) == FrameV::Array(
                seq![
                    FrameV::Bulk(crate::cmd::lit_unsubscribe()),
                    FrameV::Integer(0),
                ],
            )
        } else {
            replies.len() == chs.len() && (db1.chans(), s1.chans()) == unsub_fold(
                db0.chans(),
                s0.chans(),
                chs,
                s0.spec_id(),
            ) && db1.store() == db0.store() && (forall|t: int|
                0 <= t < chs.len() ==> frame_view(#[trigger] replies[t]) == unsubscribe_ack(
                    db0.chans(),
                    s0.chans(),
                    chs,
                    s0.spec_id(),
                    t,
                ))
        },
        _ => if subscribed {
            db1 == db0 && s1 == s0 && replies.len() == 1 && frame_view(replies[0]) is Error
        } else {
            s1 == s0 && replies.len() == 1 && match cv {
                CommandV::Ping(m) => db1 == db0 && frame_view(replies[0]) == (match m {
                    None => FrameV::Simple(seq![80u8, 79u8, 78u8, 71u8]),
                    Some(b) => FrameV::Bulk(b),
                }),
                CommandV::Get(k) => db1.chans() == db0.chans() && db1.store()
                    == crate::db::spec_read_after(db0.store(), k, now) && frame_view(replies[0])
                    == (match crate::db::spec_get_result(db0.store(), k, now) {
                    Some(b) => FrameV::Bulk(b),
                    None => FrameV::Null,
                }),
                CommandV::SetCmd { key, value, expire_ms } => db1.chans() == db0.chans()
                    && db1.store() == db0.store().insert(
                    key,
                    crate::db::EntryV {
                        value: crate::db::ValueV::Scalar(value),
                        expires_at: match expire_ms {
                            None => None,
                            Some(ms) => Some(crate::cmd::set::deadline_of(now, ms)),
                        },
                    },
                ) && frame_view(replies[0]) == FrameV::Simple(seq![79u8, 75u8]),
                CommandV::Publish { channel, message } => db1.store() == db0.store() && (
                if db0.chans().contains_key(channel) {
                    db1.chans() == db0.chans().insert(
                        channel,
                        crate::db::spec_deliver(db0.chans()[channel], message),
                    ) && frame_view(replies[0]) == FrameV::Integer(
                        db0.chans()[channel].len() as u64,
                    )
                } else {
                    db1.chans() == db0.chans() && frame_view(replies[0]) == FrameV::Integer(0)
                }),
                CommandV::HSet { key, field, value } => db1.chans() == db0.chans() && db1.store()
                    == crate::db::spec_hset(db0.store(), key, field, value, now) && frame_view(
                    replies[0],
                ) == FrameV::Simple(seq![79u8, 75u8]),
                CommandV::HGet { key, field } => db1.chans() == db0.chans() && db1.store()
                    == crate::db::spec_read_after(db0.store(), key, now) && frame_view(replies[0])
                    == (match crate::db::spec_hget_result(db0.store(), key, field, now) {
                    Some(b) => FrameV::Bulk(b),
                    None => FrameV::Null,
                }),
                CommandV::HGetAll(key) => db1.chans() == db0.chans() && db1.store()
                    == crate::db::spec_read_after(db0.store(), key, now) && frame_view(replies[0])
                    == ({
                    let m = db0.store();
                    if m.contains_key(key) && !crate::db::expired(m[key], now) && m[key].value
                        is Fields {
                        FrameV::Array(crate::cmd::hgetall::alternating(m[key].value->Fields_0))
                    } else {
                        FrameV::Null
                    }
                }),
                CommandV::Unknown(_) => db1 == db0 && frame_view(replies[0]) is Error,
                _ => true,
            }
        },
    }
}

/// Carries one decoded frame through the dispatcher: parse, state
/// check, engine effect, reply frames. A frame that holds no valid
/// command is answered with a single error frame and changes nothing.
#[verifier::rlimit(100)]
pub fn handle(db: &mut Db, session: &mut Session, frame: Frame, now: u64) -> (replies: Vec<Frame>)
    requires
        old(db).wf(),
        session_ok(*old(session), old(db).chans()),
        old(session).chans().len() + (if frame_view(frame) is Array {
            frame_view(frame)->Array_0.len()
        } else {
            0
        }) < usize::MAX,
    ensures
        final(db).wf(),
        session_ok(*final(session), final(db).chans()),
        final(session).spec_id() == old(session).spec_id(),
        match crate::cmd::spec_parse_cmd(
            if frame_view(frame) is Array {
                frame_view(frame)->Array_0
            } else {
                Seq::empty()
            },
        ) {
            Some(cv) if frame_view(frame) is Array => handle_post(
                cv,
                now,
                *old(db),
                *old(session),
                *final(db),
                *final(session),
                replies@,
            ),
            _ => *final(db) == *old(db) && *final(session) == *old(session) && replies@.len() == 1
                && frame_view(replies@[0]) is Error,
        },
{
    let ghost isarr = frame_view(frame) is Array;
    let ghost items = if isarr {
        frame_view(frame)->Array_0
    } else {
        Seq::<FrameV>::empty()
    };
    proof {
        if !isarr {
            assert(crate::cmd::spec_parse_cmd(Seq::empty()) is None);
        }
    }
    let cmd = match Command::from_frame(frame) {
        Ok(c) => c,
        Err(_) => {
            let mut replies: Vec<Frame> = Vec::new();
            replies.push(error_frame(0));
            return replies;
        },
    };
    let subscribed = session.is_subscribed();
    match cmd {
        Command::Subscribe(sb) => {
            let ghost id = session.spec_id();
            let ghost st0c = db.chans();
            let ghost st0s = session.chans();
            let ghost list = sb.spec_channels();
            let mut cs = sb.into_channels();
            let mut replies: Vec<Frame> = Vec::new();
            let mut j: usize = 0;
            let n = cs.len();
            proof {
                crate::cmd::subscribe::lemma_names_len(items.drop_first());
                assert(list.len() == items.len() - 1);
                assert(list.take(0) =~= Seq::<Seq<u8>>::empty());
                assert(sub_fold(st0c, st0s, Seq::<Seq<u8>>::empty(), id) == (st0c, st0s));
            }
            while j < n
                invariant
                    j <= n,
                    n == cs@.len(),
                    db.wf(),
                    session.spec_id() == id,
                    session_ok(*session, db.chans()),
                    db.store() == old(db).store(),
                    list == crate::cmd::subscribe::channels_view(cs@),
                    session.chans().len() <= st0s.len() + j,
                    st0s.len() + n < usize::MAX,
                    replies@.len() == j,
                    (db.chans(), session.chans()) == sub_fold(
                        st0c,
                        st0s,
                        list.take(j as int),
                        id,
                    ),
                    forall|t: int|
                        0 <= t < j ==> frame_view(#[trigger] replies@[t]) == subscribe_ack(
                            st0c,
                            st0s,
                            list,
                            id,
                            t,
                        ),
                decreases n - j,
            {
                let ghost prec = db.chans();
                let ghost pres = session.chans();
                let ch = dup(&cs[j]);
                proof {
                    assert(list[j as int] == cs@[j as int]@);
                    assert(list.take(j + 1) =~= list.take(j as int).push(list[j as int]));
                    lemma_sub_fold_snoc(st0c, st0s, list.take(j as int), list[j as int], id);
                }
                session.subscribe_one(db, ch);
                proof {
                    assert((db.chans(), session.chans()) == sub_fold(
                        st0c,
                        st0s,
                        list.take(j + 1),
                        id,
                    ));
                }
                let mut ack: Vec<Frame> = Vec::new();
                ack.push(Frame::Bulk(lit_subscribe_vec()));
                ack.push(Frame::Bulk(dup(&cs[j])));
                ack.push(Frame::Integer(session.subscribed_count() as u64));
                let ghost ackseq = ack@;
                let ackf = Frame::Array(ack);
                proof {
                    assert(ackf->Array_0@ == ackseq);
                    assert(frame_view(ackseq[0]) == FrameV::Bulk(crate::cmd::lit_subscribe()));
                    assert(frame_view(ackseq[1]) == FrameV::Bulk(list[j as int]));
                    assert(frame_view(ackseq[2]) == FrameV::Integer(
                        sub_fold(st0c, st0s, list.take(j + 1), id).1.len() as u64,
                    ));
                    let av = frame_view(ackf)->Array_0;
                    assert(av =~= seq![
                        FrameV::Bulk(crate::cmd::lit_subscribe()),
                        FrameV::Bulk(list[j as int]),
                        FrameV::Integer(
                            sub_fold(st0c, st0s, list.take(j + 1), id).1.len() as u64,
                        ),
                    ]);
                    assert(frame_view(ackf) == subscribe_ack(st0c, st0s, list, id, j as int));
                }
                replies.push(ackf);
                j = j + 1;
            }
            proof {
                assert(list.take(n as int) =~= list);
            }
            replies
        },
        Command::Unsubscribe(us) => {
            let ghost id = session.spec_id();
            let ghost st0c = db.chans();
            let ghost st0s = session.chans();
            let ghost list = us.spec_channels();
            let cs = us.into_channels();
            let mut replies: Vec<Frame> = Vec::new();
            if cs.len() == 0 {
                session.unsubscribe_all(db);
                let mut ack: Vec<Frame> = Vec::new();
                ack.push(Frame::Bulk(lit_unsubscribe_vec()));
                ack.push(Frame::Integer(0));
                let ghost ackseq = ack@;
                let ackf = Frame::Array(ack);
                proof {
                    assert(list.len() == 0);
                    assert(ackf->Array_0@ == ackseq);
                    assert(frame_view(ackseq[0]) == FrameV::Bulk(crate::cmd::lit_unsubscribe()));
                    assert(frame_view(ackseq[1]) == FrameV::Integer(0));
                    assert(frame_view(ackf)->Array_0 =~= seq![
                        FrameV::Bulk(crate::cmd::lit_unsubscribe()),
                        FrameV::Integer(0),
                    ]);
                }
                replies.push(ackf);
                return replies;
            }
            let mut j: usize = 0;
            let n = cs.len();
            proof {
                assert(list.take(0) =~= Seq::<Seq<u8>>::empty());
                assert(unsub_fold(st0c, st0s, Seq::<Seq<u8>>::empty(), id) == (st0c, st0s));
            }
            while j < n
                invariant
                    j <= n,
                    n == cs@.len(),
                    db.wf(),
                    session.spec_id() == id,
                    session_ok(*session, db.chans()),
                    db.store() == old(db).store(),
                    list == crate::cmd::subscribe::channels_view(cs@),
                    replies@.len() == j,
                    (db.chans(), session.chans()) == unsub_fold(
                        st0c,
                        st0s,
                        list.take(j as int),
                        id,
                    ),
                    forall|t: int|
                        0 <= t < j ==> frame_view(#[trigger] replies@[t]) == unsubscribe_ack(
                            st0c,
                            st0s,
                            list,
                            id,
                            t,
                        ),
                decreases n - j,
            {
                let ch = dup(&cs[j]);
                proof {
                    assert(list[j as int] == cs@[j as int]@);
                    assert(list.take(j + 1) =~= list.take(j as int).push(list[j as int]));
                    lemma_unsub_fold_snoc(st0c, st0s, list.take(j as int), list[j as int], id);
                }
                session.unsubscribe_one(db, &ch);
                proof {
                    assert((db.chans(), session.chans()) == unsub_fold(
                        st0c,
                        st0s,
                        list.take(j + 1),
                        id,
                    ));
                }
                let mut ack: Vec<Frame> = Vec::new();
                ack.push(Frame::Bulk(lit_unsubscribe_vec()));
                ack.push(Frame::Bulk(dup(&cs[j])));
                ack.push(Frame::Integer(session.subscribed_count() as u64));
                let ghost ackseq = ack@;
                let ackf = Frame::Array(ack);
                proof {
                    assert(ackf->Array_0@ == ackseq);
                    assert(frame_view(ackseq[0]) == FrameV::Bulk(crate::cmd::lit_unsubscribe()));
                    assert(frame_view(ackseq[1]) == FrameV::Bulk(list[j as int]));
                    assert(frame_view(ackseq[2]) == FrameV::Integer(
                        unsub_fold(st0c, st0s, list.take(j + 1), id).1.len() as u64,
                    ));
                    let av = frame_view(ackf)->Array_0;
                    assert(av =~= seq![
                        FrameV::Bulk(crate::cmd::lit_unsubscribe()),
                        FrameV::Bulk(list[j as int]),
                        FrameV::Integer(
                            unsub_fold(st0c, st0s, list.take(j + 1), id).1.len() as u64,
                        ),
                    ]);
                    assert(frame_view(ackf) == unsubscribe_ack(st0c, st0s, list, id, j as int));
                }
                replies.push(ackf);
                j = j + 1;
            }
            proof {
                assert(list.take(n as int) =~= list);
            }
            replies
        },
        Command::Ping(p) => {
            let mut replies: Vec<Frame> = Vec::new();
            if subscribed {
                replies.push(error_frame(2));
            } else {
                replies.push(p.apply());
            }
            replies
        },
        Command::Get(g) => {
            let mut replies: Vec<Frame> = Vec::new();
            if subscribed {
                replies.push(error_frame(2));
            } else {
                replies.push(g.apply(db, now));
            }
            replies
        },
        Command::SetCmd(st) => {
            let mut replies: Vec<Frame> = Vec::new();
            if subscribed {
                replies.push(error_frame(2));
            } else {
                replies.push(st.apply(db, now));
            }
            replies
        },
        Command::Publish(p) => {
            let mut replies: Vec<Frame> = Vec::new();
            if subscribed {
                replies.push(error_frame(2));
            } else {
                replies.push(p.apply(db));
            }
            replies
        },
        Command::HSet(h) => {
            let mut replies: Vec<Frame> = Vec::new();
            if subscribed {
                replies.push(error_frame(2));
            } else {
                replies.push(h.apply(db, now));
            }
            replies
        },
        Command::HGet(h) => {
            let mut replies: Vec<Frame> = Vec::new();
            if subscribed {
                replies.push(error_frame(2));
            } else {
                replies.push(h.apply(db, now));
            }
            replies
        },
        Command::HGetAll(h) => {
            let mut replies: Vec<Frame> = Vec::new();
            if subscribed {
                replies.push(error_frame(2));
            } else {
                replies.push(h.apply(db, now));
            }
            replies
        },
        Command::Unknown(_) => {
            let mut replies: Vec<Frame> = Vec::new();
            replies.push(error_frame(1));
            replies
        },
    }
}

fn lit_subscribe_vec() -> (r: Vec<u8>)
    ensures
        r@ == crate::cmd::lit_subscribe(),
{
    let r: Vec<u8> = vec![115u8, 117u8, 98u8, 115u8, 99u8, 114u8, 105u8, 98u8, 101u8];
    r
}

fn lit_unsubscribe_vec() -> (r: Vec<u8>)
    ensures
        r@ == crate::cmd::lit_unsubscribe(),
{
    let r: Vec<u8> = vec![117u8, 110u8, 115u8, 117u8, 98u8, 115u8, 99u8, 114u8, 105u8, 98u8,
        101u8];
    r
}

} // verus!
