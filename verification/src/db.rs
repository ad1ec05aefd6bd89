//! The shared data engine: the keyspace with scalar and field-map
//! values and per-key expiration, and the publish/subscribe registry
//! with bounded per-subscriber queues.
//!
//! Time enters every operation as an absolute instant in milliseconds;
//! a key whose deadline has passed is treated as absent and removed by
//! the read that finds it, whether or not the reaper has run.

use vstd::prelude::*;
use crate::util::{bytes_eq, dup};

verus! {

/// How many published messages a slow subscriber may have pending;
/// one more drops its oldest pending message.
pub const QUEUE_CAPACITY: usize = 1024;

/// One named byte payload inside a field map.
#[derive(Debug, PartialEq, Eq)]
pub struct FieldPair {
    pub field: Vec<u8>,
    pub value: Vec<u8>,
}

/// What a key holds: a scalar payload or a field map.
#[derive(Debug, PartialEq, Eq)]
pub enum Value {
    Scalar(Vec<u8>),
    Fields(Vec<FieldPair>),
}

pub struct Entry {
    pub key: Vec<u8>,
    pub value: Value,
    pub expires_at: Option<u64>,
}

/// One attachment of a connection to a channel, with its queue of
/// pending messages, oldest first.
pub struct Subscriber {
    pub id: u64,
    pub pending: Vec<Vec<u8>>,
}

pub struct Channel {
    pub name: Vec<u8>,
    pub subs: Vec<Subscriber>,
}

/// The engine state: every connection works against one instance.
pub struct Db {
    entries: Vec<Entry>,
    channels: Vec<Channel>,
}

pub ghost enum ValueV {
    Scalar(Seq<u8>),
    Fields(Seq<(Seq<u8>, Seq<u8>)>),
}

pub ghost struct EntryV {
    pub value: ValueV,
    pub expires_at: Option<u64>,
}

pub ghost struct SubV {
    pub id: u64,
    pub pending: Seq<Seq<u8>>,
}

pub open spec fn fields_view(fs: Seq<FieldPair>) -> Seq<(Seq<u8>, Seq<u8>)> {
    Seq::new(fs.len(), |i: int| (fs[i].field@, fs[i].value@))
}

pub open spec fn value_view(v: Value) -> ValueV {
    match v {
        Value::Scalar(b) => ValueV::Scalar(b@),
        Value::Fields(fs) => ValueV::Fields(fields_view(fs@)),
    }
}

pub open spec fn entry_view(e: Entry) -> EntryV {
    EntryV { value: value_view(e.value), expires_at: e.expires_at }
}

pub open spec fn subs_view(ss: Seq<Subscriber>) -> Seq<SubV> {
    Seq::new(ss.len(), |i: int| SubV { id: ss[i].id, pending: pending_view(ss[i].pending@) })
}

pub open spec fn pending_view(p: Seq<Vec<u8>>) -> Seq<Seq<u8>> {
    Seq::new(p.len(), |i: int| p[i]@)
}

pub open spec fn has_key(s: Seq<Entry>, k: Seq<u8>) -> bool {
    exists|i: int| 0 <= i < s.len() && #[trigger] s[i].key@ == k
}

pub open spec fn idx_of(s: Seq<Entry>, k: Seq<u8>) -> int {
    choose|i: int| 0 <= i < s.len() && #[trigger] s[i].key@ == k
}

/// The keyspace, abstracted to a map from key to entry.
pub open spec fn store_view(s: Seq<Entry>) -> Map<Seq<u8>, EntryV> {
    Map::new(|k: Seq<u8>| has_key(s, k), |k: Seq<u8>| entry_view(s[idx_of(s, k)]))
}

pub open spec fn keys_unique(s: Seq<Entry>) -> bool {
    forall|i: int, j: int|
        0 <= i < j < s.len() ==> (#[trigger] s[i].key@) != (#[trigger] s[j].key@)
}

pub open spec fn has_chan(s: Seq<Channel>, k: Seq<u8>) -> bool {
    exists|i: int| 0 <= i < s.len() && #[trigger] s[i].name@ == k
}

pub open spec fn chan_idx(s: Seq<Channel>, k: Seq<u8>) -> int {
    choose|i: int| 0 <= i < s.len() && #[trigger] s[i].name@ == k
}

/// The subscription registry, abstracted to a map from channel name to
/// its subscribers.
pub open spec fn chans_view(s: Seq<Channel>) -> Map<Seq<u8>, Seq<SubV>> {
    Map::new(|k: Seq<u8>| has_chan(s, k), |k: Seq<u8>| subs_view(s[chan_idx(s, k)].subs@))
}

pub open spec fn names_unique(s: Seq<Channel>) -> bool {
    forall|i: int, j: int|
        0 <= i < j < s.len() ==> (#[trigger] s[i].name@) != (#[trigger] s[j].name@)
}

/// The entry's deadline, if any, has passed at `now`.
pub open spec fn expired(e: EntryV, now: u64) -> bool {
    e.expires_at is Some && e.expires_at->0 <= now
}

pub open spec fn entry_fields_ok(e: Entry) -> bool {
    e.value is Fields ==> fields_unique(fields_view(e.value->Fields_0@))
}

pub open spec fn entries_ok(s: Seq<Entry>) -> bool {
    forall|i: int| 0 <= i < s.len() ==> #[trigger] entry_fields_ok(s[i])
}

/// A channel entry is live: at least one subscriber, distinct ids.
pub open spec fn chan_ok(c: Channel) -> bool {
    c.subs@.len() > 0 && ids_unique(subs_view(c.subs@))
}

pub open spec fn chans_ok(s: Seq<Channel>) -> bool {
    forall|i: int| 0 <= i < s.len() ==> #[trigger] chan_ok(s[i])
}

proof fn lemma_key_idx(s: Seq<Entry>, k: Seq<u8>, i: int)
    requires
        keys_unique(s),
        0 <= i < s.len(),
        s[i].key@ == k,
    ensures
        has_key(s, k),
        idx_of(s, k) == i,
{
    assert(has_key(s, k));
    let j = idx_of(s, k);
    assert(0 <= j < s.len() && s[j].key@ == k);
    if i != j {
        assert(s[i].key@ != s[j].key@);
    }
}

proof fn lemma_chan_idx(s: Seq<Channel>, k: Seq<u8>, i: int)
    requires
        names_unique(s),
        0 <= i < s.len(),
        s[i].name@ == k,
    ensures
        has_chan(s, k),
        chan_idx(s, k) == i,
{
    assert(has_chan(s, k));
    let j = chan_idx(s, k);
    assert(0 <= j < s.len() && s[j].name@ == k);
    if i != j {
        assert(s[i].name@ != s[j].name@);
    }
}

/// Removing the entry at `i` removes exactly its key from the map.
proof fn lemma_store_remove(s: Seq<Entry>, i: int)
    requires
        keys_unique(s),
        entries_ok(s),
        0 <= i < s.len(),
    ensures
        keys_unique(s.remove(i)),
        entries_ok(s.remove(i)),
        store_view(s.remove(i)) == store_view(s).remove(s[i].key@),
{
    let t = s.remove(i);
    s.remove_ensures(i);
    assert forall|a: int| 0 <= a < t.len() implies #[trigger] entry_fields_ok(t[a]) by {
        let a2 = if a < i { a } else { a + 1 };
        assert(t[a] == s[a2]);
        assert(entry_fields_ok(s[a2]));
    }
    assert forall|a: int, b: int| 0 <= a < b < t.len() implies (#[trigger] t[a].key@)
        != (#[trigger] t[b].key@) by {
        let a2 = if a < i { a } else { a + 1 };
        let b2 = if b < i { b } else { b + 1 };
        assert(t[a] == s[a2] && t[b] == s[b2]);
        assert(s[a2].key@ != s[b2].key@);
    }
    assert forall|k: Seq<u8>| #[trigger] has_key(t, k) implies has_key(s, k) && k != s[i].key@
        && entry_view(t[idx_of(t, k)]) == entry_view(s[idx_of(s, k)]) by {
        let jt = choose|j: int| 0 <= j < t.len() && #[trigger] t[j].key@ == k;
        let js = if jt < i { jt } else { jt + 1 };
        assert(t[jt] == s[js]);
        lemma_key_idx(s, k, js);
        lemma_key_idx(t, k, jt);
        assert(s[js].key@ == k && js != i);
        assert(s[i].key@ != k);
    }
    assert forall|k: Seq<u8>| has_key(s, k) && k != s[i].key@ implies #[trigger] has_key(t, k) by {
        let js = idx_of(s, k);
        assert(0 <= js < s.len() && s[js].key@ == k);
        assert(js != i);
        let jt = if js < i { js } else { js - 1 };
        assert(t[jt] == s[js]);
        assert(t[jt].key@ == k);
    }
    assert(store_view(t) =~= store_view(s).remove(s[i].key@));
}

/// Appending an entry with a fresh key inserts exactly that key.
proof fn lemma_store_push(s: Seq<Entry>, e: Entry)
    requires
        keys_unique(s),
        entries_ok(s),
        entry_fields_ok(e),
        !has_key(s, e.key@),
    ensures
        keys_unique(s.push(e)),
        entries_ok(s.push(e)),
        store_view(s.push(e)) == store_view(s).insert(e.key@, entry_view(e)),
{
    let t = s.push(e);
    assert forall|a: int| 0 <= a < t.len() implies #[trigger] entry_fields_ok(t[a]) by {
        if a < s.len() {
            assert(t[a] == s[a]);
            assert(entry_fields_ok(s[a]));
        } else {
            assert(t[a] == e);
        }
    }
    assert forall|a: int, b: int| 0 <= a < b < t.len() implies (#[trigger] t[a].key@)
        != (#[trigger] t[b].key@) by {
        if b == s.len() {
            assert(t[a] == s[a]);
            assert(t[b] == e);
            if s[a].key@ == e.key@ {
                assert(has_key(s, e.key@));
            }
        } else {
            assert(t[a] == s[a] && t[b] == s[b]);
        }
    }
    assert forall|k: Seq<u8>| #[trigger] has_key(t, k) implies (k == e.key@ || has_key(s, k)) by {
        let jt = choose|j: int| 0 <= j < t.len() && #[trigger] t[j].key@ == k;
        if jt < s.len() {
            assert(t[jt] == s[jt]);
        }
    }
    assert forall|k: Seq<u8>| has_key(s, k) implies #[trigger] has_key(t, k)
        && entry_view(t[idx_of(t, k)]) == entry_view(s[idx_of(s, k)]) by {
        let js = idx_of(s, k);
        assert(0 <= js < s.len() && s[js].key@ == k);
        assert(t[js] == s[js]);
        lemma_key_idx(t, k, js);
    }
    assert(t[s.len() as int] == e);
    lemma_key_idx(t, e.key@, s.len() as int);
    assert(store_view(t) =~= store_view(s).insert(e.key@, entry_view(e)));
}

/// Removing the channel at `i` removes exactly its name from the map.
proof fn lemma_chans_remove(s: Seq<Channel>, i: int)
    requires
        names_unique(s),
        chans_ok(s),
        0 <= i < s.len(),
    ensures
        names_unique(s.remove(i)),
        chans_ok(s.remove(i)),
        chans_view(s.remove(i)) == chans_view(s).remove(s[i].name@),
{
    let t = s.remove(i);
    s.remove_ensures(i);
    assert forall|a: int| 0 <= a < t.len() implies #[trigger] chan_ok(t[a]) by {
        let a2 = if a < i { a } else { a + 1 };
        assert(t[a] == s[a2]);
        assert(chan_ok(s[a2]));
    }
    assert forall|a: int, b: int| 0 <= a < b < t.len() implies (#[trigger] t[a].name@)
        != (#[trigger] t[b].name@) by {
        let a2 = if a < i { a } else { a + 1 };
        let b2 = if b < i { b } else { b + 1 };
        assert(t[a] == s[a2] && t[b] == s[b2]);
        assert(s[a2].name@ != s[b2].name@);
    }
    assert forall|k: Seq<u8>| #[trigger] has_chan(t, k) implies has_chan(s, k) && k != s[i].name@
        && subs_view(t[chan_idx(t, k)].subs@) == subs_view(s[chan_idx(s, k)].subs@) by {
        let jt = choose|j: int| 0 <= j < t.len() && #[trigger] t[j].name@ == k;
        let js = if jt < i { jt } else { jt + 1 };
        assert(t[jt] == s[js]);
        lemma_chan_idx(s, k, js);
        lemma_chan_idx(t, k, jt);
        assert(s[i].name@ != k);
    }
    assert forall|k: Seq<u8>| has_chan(s, k) && k != s[i].name@ implies #[trigger] has_chan(t, k)
        by {
        let js = chan_idx(s, k);
        assert(0 <= js < s.len() && s[js].name@ == k);
        assert(js != i);
        let jt = if js < i { js } else { js - 1 };
        assert(t[jt] == s[js]);
        assert(t[jt].name@ == k);
    }
    assert(chans_view(t) =~= chans_view(s).remove(s[i].name@));
}

/// Appending a channel with a fresh name inserts exactly that name.
proof fn lemma_chans_push(s: Seq<Channel>, c: Channel)
    requires
        names_unique(s),
        chans_ok(s),
        chan_ok(c),
        !has_chan(s, c.name@),
    ensures
        names_unique(s.push(c)),
        chans_ok(s.push(c)),
        chans_view(s.push(c)) == chans_view(s).insert(c.name@, subs_view(c.subs@)),
{
    let t = s.push(c);
    assert forall|a: int| 0 <= a < t.len() implies #[trigger] chan_ok(t[a]) by {
        if a < s.len() {
            assert(t[a] == s[a]);
            assert(chan_ok(s[a]));
        } else {
            assert(t[a] == c);
        }
    }
    assert forall|a: int, b: int| 0 <= a < b < t.len() implies (#[trigger] t[a].name@)
        != (#[trigger] t[b].name@) by {
        if b == s.len() {
            assert(t[a] == s[a]);
            assert(t[b] == c);
            if s[a].name@ == c.name@ {
                assert(has_chan(s, c.name@));
            }
        } else {
            assert(t[a] == s[a] && t[b] == s[b]);
        }
    }
    assert forall|k: Seq<u8>| #[trigger] has_chan(t, k) implies (k == c.name@ || has_chan(s, k))
        by {
        let jt = choose|j: int| 0 <= j < t.len() && #[trigger] t[j].name@ == k;
        if jt < s.len() {
            assert(t[jt] == s[jt]);
        }
    }
    assert forall|k: Seq<u8>| has_chan(s, k) implies #[trigger] has_chan(t, k)
        && subs_view(t[chan_idx(t, k)].subs@) == subs_view(s[chan_idx(s, k)].subs@) by {
        let js = chan_idx(s, k);
        assert(0 <= js < s.len() && s[js].name@ == k);
        assert(t[js] == s[js]);
        lemma_chan_idx(t, k, js);
    }
    assert(t[s.len() as int] == c);
    lemma_chan_idx(t, c.name@, s.len() as int);
    assert(chans_view(t) =~= chans_view(s).insert(c.name@, subs_view(c.subs@)));
}

/// A name outside the registry map names no channel entry.
proof fn lemma_chan_absent(s: Seq<Channel>, name: Seq<u8>)
    requires
        !chans_view(s).contains_key(name),
    ensures
        !has_chan(s, name),
{
}

impl Db {
    /// The keyspace as a map.
    pub closed spec fn store(self) -> Map<Seq<u8>, EntryV> {
        store_view(self.entries@)
    }

    /// The subscription registry as a map; a name is present exactly
    /// while at least one subscriber is attached.
    pub closed spec fn chans(self) -> Map<Seq<u8>, Seq<SubV>> {
        chans_view(self.channels@)
    }

    pub closed spec fn wf(self) -> bool {
        &&& keys_unique(self.entries@)
        &&& entries_ok(self.entries@)
        &&& names_unique(self.channels@)
        &&& chans_ok(self.channels@)
    }

    pub fn new() -> (r: Db)
        ensures
            r.wf(),
            r.store() == Map::<Seq<u8>, EntryV>::empty(),
            r.chans() == Map::<Seq<u8>, Seq<SubV>>::empty(),
    {
        let r = Db { entries: Vec::new(), channels: Vec::new() };
        proof {
            assert(r.store() =~= Map::<Seq<u8>, EntryV>::empty());
            assert(r.chans() =~= Map::<Seq<u8>, Seq<SubV>>::empty());
        }
        r
    }

    /// Index of the live entry for `key`, removing it first if its
    /// deadline has passed.
    fn find_live(&mut self, key: &Vec<u8>, now: u64) -> (r: Option<usize>)
        requires
            old(self).wf(),
        ensures
            final(self).wf(),
            final(self).chans() == old(self).chans(),
            final(self).store() == spec_read_after(old(self).store(), key@, now),
            match r {
                Some(i) => i < final(self).entries@.len()
                    && final(self).entries@[i as int].key@ == key@
                    && old(self).store().contains_key(key@)
                    && !expired(old(self).store()[key@], now)
                    && entry_view(final(self).entries@[i as int]) == old(self).store()[key@],
                None => !old(self).store().contains_key(key@)
                    || expired(old(self).store()[key@], now),
            },
    {
        let ghost m = self.store();
        let mut i: usize = 0;
        while i < self.entries.len()
            invariant
                self.wf(),
                i <= self.entries@.len(),
                m == self.store(),
                m == old(self).store(),
                self.channels == old(self).channels,
                forall|j: int| 0 <= j < i ==> (#[trigger] self.entries@[j].key@) != key@,
            decreases self.entries@.len() - i,
        {
            let e = &self.entries[i];
            if bytes_eq(&e.key, key) {
                proof {
                    lemma_key_idx(self.entries@, key@, i as int);
                    assert(m.contains_key(key@));
                    assert(m[key@] == entry_view(self.entries@[i as int]));
                }
                let is_expired = match e.expires_at {
                    Some(deadline) => deadline <= now,
                    None => false,
                };
                if is_expired {
                    proof {
                        assert(expired(m[key@], now));
                        lemma_store_remove(self.entries@, i as int);
                    }
                    self.entries.remove(i);
                    return None;
                }
                proof {
                    assert(!expired(m[key@], now));
                }
                return Some(i);
            }
            i = i + 1;
        }
        proof {
            if has_key(self.entries@, key@) {
                let j = idx_of(self.entries@, key@);
                assert(0 <= j < self.entries@.len() && self.entries@[j].key@ == key@);
            }
        }
        None
    }
}

/// Field names are pairwise distinct inside one field map.
pub open spec fn fields_unique(fs: Seq<(Seq<u8>, Seq<u8>)>) -> bool {
    forall|i: int, j: int| 0 <= i < j < fs.len() ==> (#[trigger] fs[i].0) != (#[trigger] fs[j].0)
}

pub open spec fn field_has(fs: Seq<(Seq<u8>, Seq<u8>)>, f: Seq<u8>) -> bool {
    exists|i: int| 0 <= i < fs.len() && #[trigger] fs[i].0 == f
}

pub open spec fn field_idx(fs: Seq<(Seq<u8>, Seq<u8>)>, f: Seq<u8>) -> int {
    choose|i: int| 0 <= i < fs.len() && #[trigger] fs[i].0 == f
}

/// The payload stored under field `f`, if any.
pub open spec fn field_lookup(fs: Seq<(Seq<u8>, Seq<u8>)>, f: Seq<u8>) -> Option<Seq<u8>> {
    if field_has(fs, f) {
        Some(fs[field_idx(fs, f)].1)
    } else {
        None
    }
}

/// Inserts or overwrites one field of a field map.
pub open spec fn fields_upsert(
    fs: Seq<(Seq<u8>, Seq<u8>)>,
    f: Seq<u8>,
    v: Seq<u8>,
) -> Seq<(Seq<u8>, Seq<u8>)> {
    if field_has(fs, f) {
        fs.update(field_idx(fs, f), (f, v))
    } else {
        fs.push((f, v))
    }
}

/// Subscriber ids are pairwise distinct inside one channel.
pub open spec fn ids_unique(subs: Seq<SubV>) -> bool {
    forall|i: int, j: int| 0 <= i < j < subs.len() ==> (#[trigger] subs[i].id) != (#[trigger] subs[j].id)
}

pub open spec fn subs_has_id(subs: Seq<SubV>, id: u64) -> bool {
    exists|i: int| 0 <= i < subs.len() && #[trigger] subs[i].id == id
}

pub open spec fn sub_idx(subs: Seq<SubV>, id: u64) -> int {
    choose|i: int| 0 <= i < subs.len() && #[trigger] subs[i].id == id
}

/// One more pending message; a full queue loses its oldest message.
pub open spec fn push_bounded(p: Seq<Seq<u8>>, msg: Seq<u8>) -> Seq<Seq<u8>> {
    if p.len() < QUEUE_CAPACITY {
        p.push(msg)
    } else {
        p.drop_first().push(msg)
    }
}

/// Fan-out of one published message: every subscriber of the channel
/// gets it appended to its queue, exactly once, in publish order.
pub open spec fn spec_deliver(subs: Seq<SubV>, msg: Seq<u8>) -> Seq<SubV> {
    Seq::new(subs.len(), |i: int| SubV { id: subs[i].id, pending: push_bounded(subs[i].pending, msg) })
}

/// Detaching one subscriber; the channel entry goes away with its last
/// subscriber.
pub open spec fn spec_unsub(
    c: Map<Seq<u8>, Seq<SubV>>,
    ch: Seq<u8>,
    id: u64,
) -> Map<Seq<u8>, Seq<SubV>> {
    if c.contains_key(ch) && subs_has_id(c[ch], id) {
        let rest = c[ch].remove(sub_idx(c[ch], id));
        if rest.len() == 0 {
            c.remove(ch)
        } else {
            c.insert(ch, rest)
        }
    } else {
        c
    }
}

/// What a scalar read returns.
pub open spec fn spec_get_result(m: Map<Seq<u8>, EntryV>, k: Seq<u8>, now: u64) -> Option<Seq<u8>> {
    if m.contains_key(k) && !expired(m[k], now) && m[k].value is Scalar {
        Some(m[k].value->Scalar_0)
    } else {
        None
    }
}

/// What a field read returns.
pub open spec fn spec_hget_result(
    m: Map<Seq<u8>, EntryV>,
    k: Seq<u8>,
    f: Seq<u8>,
    now: u64,
) -> Option<Seq<u8>> {
    if m.contains_key(k) && !expired(m[k], now) && m[k].value is Fields {
        field_lookup(m[k].value->Fields_0, f)
    } else {
        None
    }
}

/// The keyspace after a field write: the field map is created if the
/// key is absent, expired, or holds a scalar; a live entry keeps its
/// deadline.
pub open spec fn spec_hset(
    m: Map<Seq<u8>, EntryV>,
    k: Seq<u8>,
    f: Seq<u8>,
    v: Seq<u8>,
    now: u64,
) -> Map<Seq<u8>, EntryV> {
    let live = m.contains_key(k) && !expired(m[k], now);
    let base: Seq<(Seq<u8>, Seq<u8>)> = if live && m[k].value is Fields {
        m[k].value->Fields_0
    } else {
        Seq::empty()
    };
    let dl: Option<u64> = if live {
        m[k].expires_at
    } else {
        None
    };
    m.insert(k, EntryV { value: ValueV::Fields(fields_upsert(base, f, v)), expires_at: dl })
}

pub open spec fn opt_bytes(r: Option<Vec<u8>>) -> Option<Seq<u8>> {
    match r {
        Some(v) => Some(v@),
        None => None,
    }
}

/// The keyspace after any read of `k` at `now`: an expired entry is
/// gone, everything else stands.
pub open spec fn spec_read_after(m: Map<Seq<u8>, EntryV>, k: Seq<u8>, now: u64) -> Map<
    Seq<u8>,
    EntryV,
> {
    if m.contains_key(k) && expired(m[k], now) {
        m.remove(k)
    } else {
        m
    }
}

/// Inserts or overwrites one field in place.
fn upsert_field(fs: &mut Vec<FieldPair>, field: Vec<u8>, value: Vec<u8>)
    requires
        fields_unique(fields_view(old(fs)@)),
    ensures
        fields_view(final(fs)@) == fields_upsert(fields_view(old(fs)@), field@, value@),
        fields_unique(fields_view(final(fs)@)),
{
    let ghost fv = fields_view(fs@);
    let mut j: usize = 0;
    while j < fs.len()
        invariant
            j <= fs@.len(),
            fs@ == old(fs)@,
            fv == fields_view(fs@),
            fields_unique(fv),
            forall|t: int| 0 <= t < j ==> (#[trigger] fv[t].0) != field@,
        decreases fs@.len() - j,
    {
        let p = &fs[j];
        if bytes_eq(&p.field, &field) {
            proof {
                assert(fv[j as int].0 == field@);
                assert(field_has(fv, field@));
                let jj = field_idx(fv, field@);
                assert(0 <= jj < fv.len() && fv[jj].0 == field@);
                if jj != j {
                    assert(fv[jj].0 != fv[j as int].0);
                }
                assert(jj == j);
            }
            fs.remove(j);
            fs.insert(j, FieldPair { field, value });
            proof {
                let nv = fields_view(fs@);
                let tv = fv.update(j as int, (field@, value@));
                assert(fs@ =~= old(fs)@.remove(j as int).insert(j as int, fs@[j as int]));
                assert(nv =~= tv);
                assert forall|a: int, b: int| 0 <= a < b < tv.len() implies (#[trigger] tv[a].0)
                    != (#[trigger] tv[b].0) by {
                    assert(tv[a].0 == fv[a].0 && tv[b].0 == fv[b].0);
                }
            }
            return;
        }
        j = j + 1;
    }
    proof {
        if field_has(fv, field@) {
            let t = field_idx(fv, field@);
            assert(0 <= t < fv.len() && fv[t].0 == field@);
        }
        assert(!field_has(fv, field@));
    }
    fs.push(FieldPair { field, value });
    proof {
        let nv = fields_view(fs@);
        let tv = fv.push((field@, value@));
        assert(nv =~= tv);
        assert forall|a: int, b: int| 0 <= a < b < tv.len() implies (#[trigger] tv[a].0)
            != (#[trigger] tv[b].0) by {
            if b == fv.len() {
                assert(tv[a].0 == fv[a].0);
                if fv[a].0 == field@ {
                    assert(field_has(fv, field@));
                }
            } else {
                assert(tv[a].0 == fv[a].0 && tv[b].0 == fv[b].0);
            }
        }
    }
}

impl Db {
    /// Index of the entry for `key`, expired or not.
    fn find_index(&self, key: &Vec<u8>) -> (r: Option<usize>)
        requires
            self.wf(),
        ensures
            match r {
                Some(i) => i < self.entries@.len() && self.entries@[i as int].key@ == key@,
                None => !has_key(self.entries@, key@),
            },
    {
        let mut i: usize = 0;
        while i < self.entries.len()
            invariant
                i <= self.entries@.len(),
                forall|j: int| 0 <= j < i ==> (#[trigger] self.entries@[j].key@) != key@,
            decreases self.entries@.len() - i,
        {
            let e = &self.entries[i];
            if bytes_eq(&e.key, key) {
                return Some(i);
            }
            i = i + 1;
        }
        proof {
            if has_key(self.entries@, key@) {
                let j = idx_of(self.entries@, key@);
                assert(0 <= j < self.entries@.len() && self.entries@[j].key@ == key@);
            }
        }
        None
    }

    /// Returns the scalar value of `key`, if `key` is live at `now`
    /// and holds one; an expired entry is removed on the way.
    pub fn get(&mut self, key: &Vec<u8>, now: u64) -> (r: Option<Vec<u8>>)
        requires
            old(self).wf(),
        ensures
            final(self).wf(),
            final(self).chans() == old(self).chans(),
            final(self).store() == spec_read_after(old(self).store(), key@, now),
            opt_bytes(r) == spec_get_result(old(self).store(), key@, now),
    {
        match self.find_live(key, now) {
            None => None,
            Some(i) => {
                let e = &self.entries[i];
                match &e.value {
                    Value::Scalar(b) => Some(dup(b)),
                    Value::Fields(_) => None,
                }
            },
        }
    }

    /// Stores a scalar under `key`, replacing any prior value, of
    /// either kind, and any prior deadline.
    pub fn set(&mut self, key: Vec<u8>, value: Vec<u8>, expires_at: Option<u64>)
        requires
            old(self).wf(),
        ensures
            final(self).wf(),
            final(self).chans() == old(self).chans(),
            final(self).store() == old(self).store().insert(
                key@,
                EntryV { value: ValueV::Scalar(value@), expires_at },
            ),
    {
        let ghost m = self.store();
        match self.find_index(&key) {
            Some(i) => {
                proof {
                    lemma_key_idx(self.entries@, key@, i as int);
                    lemma_store_remove(self.entries@, i as int);
                }
                self.entries.remove(i);
            },
            None => {},
        }
        proof {
            if has_key(self.entries@, key@) {
                let j = idx_of(self.entries@, key@);
                assert(0 <= j < self.entries@.len() && self.entries@[j].key@ == key@);
                assert(self.store().contains_key(key@));
                assert(false);
            }
        }
        let e = Entry { key, value: Value::Scalar(value), expires_at };
        proof {
            lemma_store_push(self.entries@, e);
            assert(m.remove(e.key@).insert(e.key@, entry_view(e)) =~= m.insert(
                e.key@,
                entry_view(e),
            ));
            assert(m.insert(e.key@, entry_view(e)) =~= m.insert(e.key@, entry_view(e)));
        }
        self.entries.push(e);
    }

    /// Inserts or overwrites one field of the field map under `key`,
    /// creating the map when the key is absent, expired, or holds a
    /// scalar; a live entry keeps its deadline.
    pub fn hset(&mut self, key: Vec<u8>, field: Vec<u8>, value: Vec<u8>, now: u64)
        requires
            old(self).wf(),
        ensures
            final(self).wf(),
            final(self).chans() == old(self).chans(),
            final(self).store() == spec_hset(old(self).store(), key@, field@, value@, now),
    {
        let ghost m = self.store();
        match self.find_live(&key, now) {
            Some(i) => {
                proof {
                    lemma_key_idx(self.entries@, key@, i as int);
                    lemma_store_remove(self.entries@, i as int);
                }
                proof {
                    assert(entry_fields_ok(self.entries@[i as int]));
                }
                let mut e = self.entries.remove(i);
                proof {
                    assert(entry_fields_ok(e));
                    assert(entry_view(e) == m[key@]);
                    if has_key(self.entries@, key@) {
                        assert(self.store().contains_key(key@));
                        assert(false);
                    }
                }
                match e.value {
                    Value::Fields(mut fs) => {
                        upsert_field(&mut fs, field, value);
                        proof {
                            assert(fields_unique(fields_view(fs@)));
                        }
                        e.value = Value::Fields(fs);
                    },
                    Value::Scalar(_) => {
                        let mut fs: Vec<FieldPair> = Vec::new();
                        fs.push(FieldPair { field, value });
                        proof {
                            assert(fields_view(fs@) =~= fields_upsert(
                                Seq::empty(),
                                fs@[0].field@,
                                fs@[0].value@,
                            ));
                            assert(fields_unique(fields_view(fs@)));
                        }
                        e.value = Value::Fields(fs);
                    },
                }
                proof {
                    assert(entry_fields_ok(e));
                    lemma_store_push(self.entries@, e);
                    assert(m.remove(e.key@).insert(e.key@, entry_view(e)) =~= m.insert(
                        e.key@,
                        entry_view(e),
                    ));
                    assert(m.insert(e.key@, entry_view(e)) =~= spec_hset(
                        m,
                        key@,
                        field@,
                        value@,
                        now,
                    ));
                }
                self.entries.push(e);
            },
            None => {
                let mut fs: Vec<FieldPair> = Vec::new();
                fs.push(FieldPair { field, value });
                let e = Entry { key, value: Value::Fields(fs), expires_at: None };
                proof {
                    if has_key(self.entries@, e.key@) {
                        let j = idx_of(self.entries@, e.key@);
                        assert(0 <= j < self.entries@.len() && self.entries@[j].key@ == e.key@);
                        assert(self.store().contains_key(e.key@));
                        assert(false);
                    }
                    assert(fields_view(e.value->Fields_0@) =~= fields_upsert(
                        Seq::empty(),
                        field@,
                        value@,
                    ));
                    assert(entry_fields_ok(e));
                    lemma_store_push(self.entries@, e);
                    assert(spec_read_after(m, e.key@, now).insert(e.key@, entry_view(e)) =~=
                        spec_hset(m, e.key@, field@, value@, now));
                }
                self.entries.push(e);
            },
        }
    }

    /// Returns the payload under `field` of the field map at `key`, if
    /// the key is live at `now` and holds a field map with that field.
    pub fn hget(&mut self, key: &Vec<u8>, field: &Vec<u8>, now: u64) -> (r: Option<Vec<u8>>)
        requires
            old(self).wf(),
        ensures
            final(self).wf(),
            final(self).chans() == old(self).chans(),
            final(self).store() == spec_read_after(old(self).store(), key@, now),
            opt_bytes(r) == spec_hget_result(old(self).store(), key@, field@, now),
    {
        let ghost m = self.store();
        match self.find_live(key, now) {
            None => None,
            Some(i) => {
                let e = &self.entries[i];
                proof {
                    assert(entry_fields_ok(self.entries@[i as int]));
                }
                match &e.value {
                    Value::Scalar(_) => None,
                    Value::Fields(fs) => {
                        let ghost fv = fields_view(fs@);
                        let mut j: usize = 0;
                        while j < fs.len()
                            invariant
                                self.wf(),
                                final(self).chans() == old(self).chans(),
                                self.store() == spec_read_after(m, key@, now),
                                m == old(self).store(),
                                m.contains_key(key@) && !expired(m[key@], now),
                                m[key@].value is Fields,
                                fv == m[key@].value->Fields_0,
                                j <= fs@.len(),
                                fv == fields_view(fs@),
                                fields_unique(fv),
                                forall|t: int| 0 <= t < j ==> (#[trigger] fv[t].0) != field@,
                            decreases fs@.len() - j,
                        {
                            let p = &fs[j];
                            if bytes_eq(&p.field, field) {
                                proof {
                                    assert(fv[j as int].0 == field@);
                                    assert(field_has(fv, field@));
                                    let jj = field_idx(fv, field@);
                                    assert(0 <= jj < fv.len() && fv[jj].0 == field@);
                                    if jj != j {
                                        assert(fv[jj].0 != fv[j as int].0);
                                    }
                                }
                                return Some(dup(&p.value));
                            }
                            j = j + 1;
                        }
                        proof {
                            if field_has(fv, field@) {
                                let t = field_idx(fv, field@);
                                assert(0 <= t < fv.len() && fv[t].0 == field@);
                            }
                        }
                        None
                    },
                }
            },
        }
    }

    /// Returns the whole field map at `key`, in insertion order, if
    /// the key is live at `now` and holds one.
    pub fn hgetall(&mut self, key: &Vec<u8>, now: u64) -> (r: Option<Vec<FieldPair>>)
        requires
            old(self).wf(),
        ensures
            final(self).wf(),
            final(self).chans() == old(self).chans(),
            final(self).store() == spec_read_after(old(self).store(), key@, now),
            ({
                let m = old(self).store();
                match r {
                    Some(fs) => m.contains_key(key@) && !expired(m[key@], now)
                        && m[key@].value is Fields && fields_view(fs@) == m[key@].value->Fields_0,
                    None => !m.contains_key(key@) || expired(m[key@], now)
                        || !(m[key@].value is Fields),
                }
            }),
    {
        match self.find_live(key, now) {
            None => None,
            Some(i) => {
                let e = &self.entries[i];
                match &e.value {
                    Value::Scalar(_) => None,
                    Value::Fields(fs) => {
                        let mut out: Vec<FieldPair> = Vec::new();
                        let mut j: usize = 0;
                        while j < fs.len()
                            invariant
                                j <= fs@.len(),
                                out@.len() == j,
                                forall|t: int|
                                    0 <= t < j ==> (#[trigger] out@[t].field@) == fs@[t].field@
                                        && out@[t].value@ == fs@[t].value@,
                            decreases fs@.len() - j,
                        {
                            let p = &fs[j];
                            out.push(FieldPair { field: dup(&p.field), value: dup(&p.value) });
                            j = j + 1;
                        }
                        proof {
                            assert(fields_view(out@) =~= fields_view(fs@));
                        }
                        Some(out)
                    },
                }
            },
        }
    }
}

/// Index of the subscriber with `id`, if attached.
fn find_sub(subs: &Vec<Subscriber>, id: u64) -> (r: Option<usize>)
    requires
        ids_unique(subs_view(subs@)),
    ensures
        match r {
            Some(j) => j < subs@.len() && subs@[j as int].id == id
                && subs_has_id(subs_view(subs@), id) && sub_idx(subs_view(subs@), id) == j as int,
            None => !subs_has_id(subs_view(subs@), id),
        },
{
    let ghost sv = subs_view(subs@);
    let mut j: usize = 0;
    while j < subs.len()
        invariant
            j <= subs@.len(),
            sv == subs_view(subs@),
            ids_unique(sv),
            forall|t: int| 0 <= t < j ==> (#[trigger] sv[t].id) != id,
        decreases subs@.len() - j,
    {
        if subs[j].id == id {
            proof {
                assert(sv[j as int].id == id);
                assert(subs_has_id(sv, id));
                let jj = sub_idx(sv, id);
                assert(0 <= jj < sv.len() && sv[jj].id == id);
                if jj != j {
                    assert(sv[jj].id != sv[j as int].id);
                }
            }
            return Some(j);
        }
        j = j + 1;
    }
    proof {
        if subs_has_id(sv, id) {
            let t = sub_idx(sv, id);
            assert(0 <= t < sv.len() && sv[t].id == id);
        }
    }
    None
}

/// The keyspace after a reaper sweep at `now`.
pub open spec fn spec_purge(m: Map<Seq<u8>, EntryV>, now: u64) -> Map<Seq<u8>, EntryV> {
    Map::new(|k: Seq<u8>| m.contains_key(k) && !expired(m[k], now), |k: Seq<u8>| m[k])
}

/// `next` is the least deadline present in `m`, or nothing when no
/// key carries one.
pub open spec fn min_deadline_ok(m: Map<Seq<u8>, EntryV>, next: Option<u64>) -> bool {
    match next {
        Some(d) => (exists|k: Seq<u8>|
            m.contains_key(k) && (#[trigger] m[k].expires_at) == Some(d)) && (forall|k: Seq<u8>|
            m.contains_key(k) && (#[trigger] m[k].expires_at) is Some ==> d <= m[k].expires_at->0),
        None => forall|k: Seq<u8>| m.contains_key(k) ==> (#[trigger] m[k].expires_at) is None,
    }
}

impl Db {
    /// One reaper sweep: removes every expired key and reports the
    /// earliest deadline still pending, which is when the reaper
    /// should wake next.
    pub fn purge_expired(&mut self, now: u64) -> (next: Option<u64>)
        requires
            old(self).wf(),
        ensures
            final(self).wf(),
            final(self).chans() == old(self).chans(),
            final(self).store() == spec_purge(old(self).store(), now),
            min_deadline_ok(final(self).store(), next),
    {
        let ghost m0 = self.store();
        let mut i: usize = 0;
        let mut next: Option<u64> = None;
        while i < self.entries.len()
            invariant
                self.wf(),
                i <= self.entries@.len(),
                self.channels == old(self).channels,
                m0 == old(self).store(),
                forall|k: Seq<u8>| #[trigger]
                    self.store().contains_key(k) ==> m0.contains_key(k) && self.store()[k]
                        == m0[k],
                forall|k: Seq<u8>| #[trigger]
                    m0.contains_key(k) && !expired(m0[k], now) ==> self.store().contains_key(k),
                forall|j: int|
                    0 <= j < i ==> !expired(entry_view(#[trigger] self.entries@[j]), now),
                match next {
                    Some(d) => (exists|j: int|
                        0 <= j < i && (#[trigger] self.entries@[j].expires_at) == Some(d))
                        && forall|j: int|
                        0 <= j < i && (#[trigger] self.entries@[j].expires_at) is Some ==> d
                            <= self.entries@[j].expires_at->0,
                    None => forall|j: int|
                        0 <= j < i ==> (#[trigger] self.entries@[j].expires_at) is None,
                },
            decreases self.entries@.len() - i,
        {
            let ghost mprev = self.store();
            let ghost eprev = self.entries@;
            let e = &self.entries[i];
            proof {
                lemma_key_idx(self.entries@, self.entries@[i as int].key@, i as int);
            }
            let is_expired = match e.expires_at {
                Some(deadline) => deadline <= now,
                None => false,
            };
            if is_expired {
                proof {
                    lemma_store_remove(self.entries@, i as int);
                }
                self.entries.remove(i);
                proof {
                    let kk = eprev[i as int].key@;
                    eprev.remove_ensures(i as int);
                    assert(mprev[kk] == entry_view(eprev[i as int]));
                    assert(expired(mprev[kk], now));
                    assert(self.store() == mprev.remove(kk));
                    assert forall|k: Seq<u8>| #[trigger]
                        self.store().contains_key(k) implies m0.contains_key(k) && self.store()[k]
                        == m0[k] by {
                        assert(mprev.contains_key(k) && mprev[k] == self.store()[k]);
                    }
                    assert forall|k: Seq<u8>| #[trigger]
                        m0.contains_key(k) && !expired(m0[k], now) implies self.store(
                    ).contains_key(k) by {
                        assert(mprev.contains_key(k));
                        if k == kk {
                            assert(mprev[k] == m0[k]);
                        }
                    }
                    assert forall|j: int| 0 <= j < i implies !expired(
                        entry_view(#[trigger] self.entries@[j]),
                        now,
                    ) by {
                        assert(self.entries@[j] == eprev[j]);
                    }
                    match next {
                        Some(d) => {
                            let jw = choose|j: int|
                                0 <= j < i && (#[trigger] eprev[j].expires_at) == Some(d);
                            assert(self.entries@[jw] == eprev[jw]);
                            assert forall|j: int|
                                0 <= j < i && (#[trigger] self.entries@[j].expires_at)
                                    is Some implies d <= self.entries@[j].expires_at->0 by {
                                assert(self.entries@[j] == eprev[j]);
                            }
                        },
                        None => {
                            assert forall|j: int| 0 <= j < i implies (#[trigger] self.entries@[
                                j
                            ].expires_at) is None by {
                                assert(self.entries@[j] == eprev[j]);
                            }
                        },
                    }
                }
            } else {
                match e.expires_at {
                    Some(d) => {
                        next = match next {
                            Some(n) => if d < n {
                                Some(d)
                            } else {
                                Some(n)
                            },
                            None => Some(d),
                        };
                    },
                    None => {},
                }
                i = i + 1;
            }
        }
        proof {
            assert forall|k: Seq<u8>| #[trigger]
                self.store().contains_key(k) implies !expired(self.store()[k], now) by {
                let j = idx_of(self.entries@, k);
                assert(0 <= j < self.entries@.len() && self.entries@[j].key@ == k);
                assert(!expired(entry_view(self.entries@[j]), now));
                lemma_key_idx(self.entries@, k, j);
            }
            assert(self.store() =~= spec_purge(m0, now));
            match next {
                Some(d) => {
                    let j = choose|j: int|
                        0 <= j < self.entries@.len() && (#[trigger] self.entries@[j].expires_at)
                            == Some(d);
                    lemma_key_idx(self.entries@, self.entries@[j].key@, j);
                    assert(self.store().contains_key(self.entries@[j].key@)
                        && self.store()[self.entries@[j].key@].expires_at == Some(d));
                    assert forall|k: Seq<u8>|
                        self.store().contains_key(k) && (#[trigger] self.store()[k].expires_at)
                            is Some implies d <= self.store()[k].expires_at->0 by {
                        let t = idx_of(self.entries@, k);
                        assert(0 <= t < self.entries@.len() && self.entries@[t].key@ == k);
                        lemma_key_idx(self.entries@, k, t);
                    }
                },
                None => {
                    assert forall|k: Seq<u8>|
                        self.store().contains_key(k) implies (#[trigger] self.store()[k].expires_at)
                            is None by {
                        let t = idx_of(self.entries@, k);
                        assert(0 <= t < self.entries@.len() && self.entries@[t].key@ == k);
                        lemma_key_idx(self.entries@, k, t);
                    }
                },
            }
        }
        next
    }

    /// A channel's subscribers, as the registry shows them, carry
    /// pairwise distinct ids.
    pub proof fn lemma_chan_ids_unique(self, ch: Seq<u8>)
        requires
            self.wf(),
            self.chans().contains_key(ch),
        ensures
            ids_unique(self.chans()[ch]),
    {
        let j = chan_idx(self.channels@, ch);
        assert(0 <= j < self.channels@.len() && self.channels@[j].name@ == ch);
        assert(chan_ok(self.channels@[j]));
    }

    /// Index of the channel entry named `name`.
    fn find_chan(&self, name: &Vec<u8>) -> (r: Option<usize>)
        requires
            self.wf(),
        ensures
            match r {
                Some(i) => i < self.channels@.len() && self.channels@[i as int].name@ == name@
                    && has_chan(self.channels@, name@)
                    && chan_idx(self.channels@, name@) == i as int,
                None => !has_chan(self.channels@, name@),
            },
    {
        let mut i: usize = 0;
        while i < self.channels.len()
            invariant
                self.wf(),
                i <= self.channels@.len(),
                forall|j: int| 0 <= j < i ==> (#[trigger] self.channels@[j].name@) != name@,
            decreases self.channels@.len() - i,
        {
            let c = &self.channels[i];
            if bytes_eq(&c.name, name) {
                proof {
                    lemma_chan_idx(self.channels@, name@, i as int);
                }
                return Some(i);
            }
            i = i + 1;
        }
        proof {
            if has_chan(self.channels@, name@) {
                let j = chan_idx(self.channels@, name@);
                assert(0 <= j < self.channels@.len() && self.channels@[j].name@ == name@);
            }
        }
        None
    }

    /// Attaches subscriber `id` to `channel`, creating the channel
    /// entry lazily; each id is attached to a channel at most once.
    pub fn subscribe(&mut self, channel: Vec<u8>, id: u64)
        requires
            old(self).wf(),
            old(self).chans().contains_key(channel@) ==> !subs_has_id(
                old(self).chans()[channel@],
                id,
            ),
        ensures
            final(self).wf(),
            final(self).store() == old(self).store(),
            final(self).chans() == old(self).chans().insert(
                channel@,
                (if old(self).chans().contains_key(channel@) {
                    old(self).chans()[channel@]
                } else {
                    Seq::empty()
                }).push(SubV { id, pending: Seq::empty() }),
            ),
    {
        let ghost c0 = self.chans();
        match self.find_chan(&channel) {
            Some(i) => {
                let ghost osubs = subs_view(self.channels@[i as int].subs@);
                proof {
                    assert(chan_ok(self.channels@[i as int]));
                    lemma_chans_remove(self.channels@, i as int);
                }
                let mut c = self.channels.remove(i);
                c.subs.push(Subscriber { id, pending: Vec::new() });
                proof {
                    let nsubs = subs_view(c.subs@);
                    let target = osubs.push(SubV { id, pending: Seq::empty() });
                    assert(pending_view(Seq::<Vec<u8>>::empty()) =~= Seq::<Seq<u8>>::empty());
                    assert(nsubs =~= target);
                    assert forall|a: int, b: int| 0 <= a < b < target.len() implies (
                    #[trigger] target[a].id) != (#[trigger] target[b].id) by {
                        if b == osubs.len() {
                            assert(target[a] == osubs[a]);
                            if osubs[a].id == id {
                                assert(subs_has_id(osubs, id));
                            }
                        } else {
                            assert(target[a] == osubs[a] && target[b] == osubs[b]);
                        }
                    }
                    assert(chan_ok(c));
                    lemma_chan_absent(self.channels@, c.name@);
                    lemma_chans_push(self.channels@, c);
                    assert(c0.remove(channel@).insert(channel@, nsubs) =~= c0.insert(
                        channel@,
                        nsubs,
                    ));
                }
                self.channels.push(c);
            },
            None => {
                let mut subs: Vec<Subscriber> = Vec::new();
                subs.push(Subscriber { id, pending: Vec::new() });
                let c = Channel { name: channel, subs };
                proof {
                    let nsubs = subs_view(c.subs@);
                    assert(pending_view(Seq::<Vec<u8>>::empty()) =~= Seq::<Seq<u8>>::empty());
                    assert(nsubs =~= Seq::<SubV>::empty().push(
                        SubV { id, pending: Seq::empty() },
                    ));
                    assert(chan_ok(c));
                    lemma_chans_push(self.channels@, c);
                }
                self.channels.push(c);
            },
        }
    }

    /// Delivers `msg` to every subscriber of `channel` and reports how
    /// many there were; with no channel entry it is a no-op that
    /// reports zero.
    pub fn publish(&mut self, channel: &Vec<u8>, msg: &Vec<u8>) -> (n: usize)
        requires
            old(self).wf(),
        ensures
            final(self).wf(),
            final(self).store() == old(self).store(),
            ({
                let c = old(self).chans();
                if c.contains_key(channel@) {
                    n == c[channel@].len() && final(self).chans() == c.insert(
                        channel@,
                        spec_deliver(c[channel@], msg@),
                    )
                } else {
                    n == 0 && final(self).chans() == c
                }
            }),
    {
        let ghost c0 = self.chans();
        match self.find_chan(channel) {
            None => 0,
            Some(i) => {
                let ghost osubs = subs_view(self.channels@[i as int].subs@);
                proof {
                    assert(chan_ok(self.channels@[i as int]));
                    lemma_chans_remove(self.channels@, i as int);
                }
                let mut c = self.channels.remove(i);
                let n = c.subs.len();
                let ghost cname = c.name@;
                let mut j: usize = 0;
                while j < c.subs.len()
                    invariant
                        j <= c.subs@.len(),
                        c.subs@.len() == osubs.len(),
                        c.name@ == cname,
                        forall|t: int|
                            0 <= t < j ==> subs_view(c.subs@)[t] == (#[trigger] spec_deliver(
                                osubs,
                                msg@,
                            )[t]),
                        forall|t: int|
                            j <= t < osubs.len() ==> (#[trigger] subs_view(c.subs@)[t])
                                == osubs[t],
                    decreases c.subs@.len() - j,
                {
                    let ghost presubs = subs_view(c.subs@);
                    let mut sub = c.subs.remove(j);
                    let ghost opending = pending_view(sub.pending@);
                    if sub.pending.len() >= QUEUE_CAPACITY {
                        sub.pending.remove(0);
                    }
                    sub.pending.push(dup(msg));
                    proof {
                        if opending.len() < QUEUE_CAPACITY {
                            assert(pending_view(sub.pending@) =~= opending.push(msg@));
                        } else {
                            assert(pending_view(sub.pending@) =~= opending.drop_first().push(
                                msg@,
                            ));
                        }
                        assert(pending_view(sub.pending@) =~= push_bounded(opending, msg@));
                    }
                    c.subs.insert(j, sub);
                    proof {
                        let ghost nsubs = subs_view(c.subs@);
                        assert(nsubs =~= presubs.update(
                            j as int,
                            SubV {
                                id: presubs[j as int].id,
                                pending: push_bounded(presubs[j as int].pending, msg@),
                            },
                        ));
                    }
                    j = j + 1;
                }
                proof {
                    assert(subs_view(c.subs@) =~= spec_deliver(osubs, msg@));
                    assert forall|a: int, b: int|
                        0 <= a < b < subs_view(c.subs@).len() implies (#[trigger] subs_view(
                        c.subs@,
                    )[a].id) != (#[trigger] subs_view(c.subs@)[b].id) by {
                        assert(subs_view(c.subs@)[a].id == osubs[a].id);
                        assert(subs_view(c.subs@)[b].id == osubs[b].id);
                        assert(osubs[a].id != osubs[b].id);
                    }
                    assert(chan_ok(c));
                    lemma_chan_absent(self.channels@, c.name@);
                    lemma_chans_push(self.channels@, c);
                    assert(c0.remove(channel@).insert(channel@, subs_view(c.subs@)) =~= c0.insert(
                        channel@,
                        subs_view(c.subs@),
                    ));
                }
                self.channels.push(c);
                n
            },
        }
    }

    /// Detaches subscriber `id` from `channel`; the channel entry is
    /// dropped with its last subscriber.
    pub fn unsubscribe(&mut self, channel: &Vec<u8>, id: u64)
        requires
            old(self).wf(),
        ensures
            final(self).wf(),
            final(self).store() == old(self).store(),
            final(self).chans() == spec_unsub(old(self).chans(), channel@, id),
    {
        let ghost c0 = self.chans();
        match self.find_chan(channel) {
            None => {},
            Some(i) => {
                let ghost osubs = subs_view(self.channels@[i as int].subs@);
                proof {
                    assert(chan_ok(self.channels@[i as int]));
                    lemma_chans_remove(self.channels@, i as int);
                }
                let mut c = self.channels.remove(i);
                match find_sub(&c.subs, id) {
                    None => {
                        proof {
                            assert(chan_ok(c));
                            lemma_chan_absent(self.channels@, c.name@);
                            lemma_chans_push(self.channels@, c);
                            assert(c0.remove(channel@).insert(channel@, osubs) =~= c0);
                        }
                        self.channels.push(c);
                    },
                    Some(j) => {
                        let ghost pvec = c.subs@;
                        c.subs.remove(j);
                        proof {
                            assert(subs_view(c.subs@) =~= osubs.remove(j as int));
                        }
                        if c.subs.len() == 0 {
                            proof {
                                assert(subs_view(c.subs@).len() == 0);
                                assert(spec_unsub(c0, channel@, id) =~= c0.remove(channel@));
                            }
                        } else {
                            proof {
                                let nsubs = subs_view(c.subs@);
                                assert forall|a: int, b: int|
                                    0 <= a < b < nsubs.len() implies (#[trigger] nsubs[a].id)
                                    != (#[trigger] nsubs[b].id) by {
                                    let jj = j as int;
                                    let a2 = if a < jj { a } else { a + 1 };
                                    let b2 = if b < jj { b } else { b + 1 };
                                    assert(nsubs[a] == osubs[a2] && nsubs[b] == osubs[b2]);
                                    assert(osubs[a2].id != osubs[b2].id);
                                }
                                assert(chan_ok(c));
                                lemma_chan_absent(self.channels@, c.name@);
                                lemma_chans_push(self.channels@, c);
                                assert(c0.remove(channel@).insert(channel@, subs_view(c.subs@))
                                    =~= c0.insert(channel@, subs_view(c.subs@)));
                            }
                            self.channels.push(c);
                        }
                    },
                }
            },
        }
    }

    /// Hands subscriber `id` its oldest pending message on `channel`,
    /// if any.
    pub fn receive(&mut self, channel: &Vec<u8>, id: u64) -> (r: Option<Vec<u8>>)
        requires
            old(self).wf(),
        ensures
            final(self).wf(),
            final(self).store() == old(self).store(),
            ({
                let c = old(self).chans();
                if c.contains_key(channel@) && subs_has_id(c[channel@], id) && c[channel@][sub_idx(
                    c[channel@],
                    id,
                )].pending.len() > 0 {
                    let s = c[channel@];
                    let t = sub_idx(s, id);
                    opt_bytes(r) == Some(s[t].pending[0]) && final(self).chans() == c.insert(
                        channel@,
                        s.update(t, SubV { id, pending: s[t].pending.drop_first() }),
                    )
                } else {
                    r is None && final(self).chans() == c
                }
            }),
    {
        let ghost c0 = self.chans();
        match self.find_chan(channel) {
            None => None,
            Some(i) => {
                let ghost osubs = subs_view(self.channels@[i as int].subs@);
                proof {
                    assert(chan_ok(self.channels@[i as int]));
                    lemma_chans_remove(self.channels@, i as int);
                }
                let mut c = self.channels.remove(i);
                let ghost restore = c;
                match find_sub(&c.subs, id) {
                    None => {
                        proof {
                            assert(chan_ok(c));
                            lemma_chan_absent(self.channels@, c.name@);
                            lemma_chans_push(self.channels@, c);
                            assert(c0.remove(channel@).insert(channel@, osubs) =~= c0);
                        }
                        self.channels.push(c);
                        None
                    },
                    Some(j) => {
                        let ghost pvec = c.subs@;
                        let mut sub = c.subs.remove(j);
                        let ghost opending = pending_view(sub.pending@);
                        if sub.pending.len() == 0 {
                            c.subs.insert(j, sub);
                            proof {
                                assert(c.subs@ =~= pvec);
                                assert(subs_view(c.subs@) == osubs);
                                assert(chan_ok(c));
                                lemma_chan_absent(self.channels@, c.name@);
                                lemma_chans_push(self.channels@, c);
                                assert(c0.remove(channel@).insert(channel@, osubs) =~= c0);
                                assert(osubs[j as int].pending.len() == 0);
                            }
                            self.channels.push(c);
                            None
                        } else {
                            let msg = sub.pending.remove(0);
                            proof {
                                assert(pending_view(sub.pending@) =~= opending.drop_first());
                            }
                            c.subs.insert(j, sub);
                            proof {
                                let nsubs = subs_view(c.subs@);
                                let tgt = osubs.update(
                                    j as int,
                                    SubV { id, pending: opending.drop_first() },
                                );
                                assert(c.subs@ =~= pvec.update(j as int, c.subs@[j as int]));
                                assert(nsubs =~= tgt);
                                assert forall|a: int, b: int| 0 <= a < b < tgt.len() implies (
                                #[trigger] tgt[a].id) != (#[trigger] tgt[b].id) by {
                                    assert(tgt[a].id == osubs[a].id && tgt[b].id == osubs[b].id);
                                }
                                assert(chan_ok(c));
                                lemma_chan_absent(self.channels@, c.name@);
                                lemma_chans_push(self.channels@, c);
                                assert(c0.remove(channel@).insert(channel@, nsubs) =~= c0.insert(
                                    channel@,
                                    nsubs,
                                ));
                                assert(msg@ == osubs[j as int].pending[0]);
                            }
                            self.channels.push(c);
                            Some(msg)
                        }
                    },
                }
            },
        }
    }
}

} // verus!
