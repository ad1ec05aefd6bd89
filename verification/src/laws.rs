//! Engine-level laws: what follows from the keyspace and registry
//! transitions that the engine's contracts are stated over.

use vstd::prelude::*;
use crate::db::{
    EntryV, ValueV, SubV, spec_get_result, spec_hget_result, spec_hset, spec_deliver, spec_unsub,
    subs_has_id, sub_idx, ids_unique, field_has, field_idx, fields_upsert, expired, QUEUE_CAPACITY,
};

verus! {

/// Expiry correctness: a scalar written with a deadline reads back
/// whole before the deadline and as absent from the deadline on, with
/// no help from the reaper.
pub proof fn lemma_expiry_correctness(
    m: Map<Seq<u8>, EntryV>,
    k: Seq<u8>,
    v: Seq<u8>,
    dl: u64,
    now: u64,
)
    ensures
        spec_get_result(
            m.insert(k, EntryV { value: ValueV::Scalar(v), expires_at: Some(dl) }),
            k,
            now,
        ) == if now >= dl {
            None::<Seq<u8>>
        } else {
            Some(v)
        },
{
}

/// Type replacement: once a field write has turned a key into a field
/// map, a scalar read of that key finds nothing, at any time.
pub proof fn lemma_type_replacement(
    m: Map<Seq<u8>, EntryV>,
    k: Seq<u8>,
    f: Seq<u8>,
    w: Seq<u8>,
    now: u64,
    later: u64,
)
    ensures
        spec_get_result(spec_hset(m, k, f, w, now), k, later) == None::<Seq<u8>>,
{
}

/// Hash isolation: two fields written under one fresh key read back
/// independently, and an unwritten field reads as absent.
pub proof fn lemma_hash_isolation(
    m: Map<Seq<u8>, EntryV>,
    k: Seq<u8>,
    f1: Seq<u8>,
    a: Seq<u8>,
    f2: Seq<u8>,
    b: Seq<u8>,
    f3: Seq<u8>,
    now: u64,
)
    requires
        !m.contains_key(k),
        f1 != f2,
        f3 != f1,
        f3 != f2,
    ensures
        ({
            let m2 = spec_hset(spec_hset(m, k, f1, a, now), k, f2, b, now);
            &&& spec_hget_result(m2, k, f1, now) == Some(a)
            &&& spec_hget_result(m2, k, f2, now) == Some(b)
            &&& spec_hget_result(m2, k, f3, now) == None::<Seq<u8>>
            &&& m2[k].value->Fields_0 == seq![(f1, a), (f2, b)]
        }),
{
    let s1 = fields_upsert(Seq::empty(), f1, a);
    if field_has(Seq::empty(), f1) {
        let t = field_idx(Seq::empty(), f1);
        assert(0 <= t < 0);
    }
    assert(s1 =~= seq![(f1, a)]);
    if field_has(s1, f2) {
        let t = field_idx(s1, f2);
        assert(0 <= t < 1 && s1[t].0 == f2);
    }
    let s2 = fields_upsert(s1, f2, b);
    assert(s2 =~= seq![(f1, a), (f2, b)]);
    let m1 = spec_hset(m, k, f1, a, now);
    let m2 = spec_hset(m1, k, f2, b, now);
    assert(m1[k].value->Fields_0 == s1);
    assert(m2[k].value->Fields_0 == s2);
    assert(s2[0].0 == f1);
    assert(field_has(s2, f1));
    let t1 = field_idx(s2, f1);
    assert(0 <= t1 < 2 && s2[t1].0 == f1);
    assert(t1 == 0);
    assert(s2[1].0 == f2);
    assert(field_has(s2, f2));
    let t2 = field_idx(s2, f2);
    assert(0 <= t2 < 2 && s2[t2].0 == f2);
    assert(t2 == 1);
    if field_has(s2, f3) {
        let t3 = field_idx(s2, f3);
        assert(0 <= t3 < 2 && s2[t3].0 == f3);
    }
}

/// Fan-out: one publish reaches every subscriber of the channel
/// exactly once, appended at the end of its queue, so messages on one
/// channel arrive in publish order; ids and subscriber count are kept.
pub proof fn lemma_fanout(subs: Seq<SubV>, msg: Seq<u8>, i: int)
    requires
        0 <= i < subs.len(),
        subs[i].pending.len() < QUEUE_CAPACITY,
    ensures
        spec_deliver(subs, msg).len() == subs.len(),
        spec_deliver(subs, msg)[i].id == subs[i].id,
        spec_deliver(subs, msg)[i].pending == subs[i].pending.push(msg),
{
}

/// After detaching, the id is attached to the channel no longer, and a
/// later publish on that channel delivers nothing to it.
pub proof fn lemma_unsubscribe_stops_delivery(
    c: Map<Seq<u8>, Seq<SubV>>,
    ch: Seq<u8>,
    id: u64,
    msg: Seq<u8>,
)
    requires
        c.contains_key(ch) ==> ids_unique(c[ch]),
    ensures
        ({
            let c2 = spec_unsub(c, ch, id);
            &&& (c2.contains_key(ch) ==> !subs_has_id(c2[ch], id))
            &&& (c2.contains_key(ch) ==> forall|j: int|
                0 <= j < spec_deliver(c2[ch], msg).len() ==> (#[trigger] spec_deliver(
                    c2[ch],
                    msg,
                )[j].id) != id)
        }),
{
    let c2 = spec_unsub(c, ch, id);
    if c2.contains_key(ch) {
        if c.contains_key(ch) && subs_has_id(c[ch], id) {
            let s = c[ch];
            let t = sub_idx(s, id);
            assert(0 <= t < s.len() && s[t].id == id);
            let rest = s.remove(t);
            s.remove_ensures(t);
            assert(c2[ch] == rest);
            assert forall|j: int| 0 <= j < rest.len() implies (#[trigger] rest[j].id) != id by {
                let j2 = if j < t { j } else { j + 1 };
                assert(rest[j] == s[j2]);
                if s[j2].id == id {
                    assert(j2 != t);
                    assert(s[j2].id != s[t].id);
                }
            }
            if subs_has_id(rest, id) {
                let w = sub_idx(rest, id);
                assert(0 <= w < rest.len() && rest[w].id == id);
            }
        } else {
            assert(c2 == c);
            if subs_has_id(c2[ch], id) {
                assert(c.contains_key(ch) && subs_has_id(c[ch], id));
            }
        }
        assert forall|j: int| 0 <= j < spec_deliver(c2[ch], msg).len() implies (
        #[trigger] spec_deliver(c2[ch], msg)[j].id) != id by {
            assert(spec_deliver(c2[ch], msg)[j].id == c2[ch][j].id);
            if c2[ch][j].id == id {
                assert(subs_has_id(c2[ch], id));
            }
        }
    }
}

} // verus!
