//! A stream value: a named list of entries, each a small map of
//! string fields. The append-style commands that would feed this type
//! are accepted by the command parser but have no engine effect yet;
//! the type itself is complete and usable on its own.

use vstd::prelude::*;
use std::collections::VecDeque;

verus! {

/// Field lists keep one value per field name.
pub open spec fn pairs_view(ps: Seq<(String, String)>) -> Seq<(Seq<char>, Seq<char>)> {
    Seq::new(ps.len(), |i: int| (ps[i].0@, ps[i].1@))
}

pub open spec fn pair_has(ps: Seq<(Seq<char>, Seq<char>)>, f: Seq<char>) -> bool {
    exists|i: int| 0 <= i < ps.len() && #[trigger] ps[i].0 == f
}

pub open spec fn pair_idx(ps: Seq<(Seq<char>, Seq<char>)>, f: Seq<char>) -> int {
    choose|i: int| 0 <= i < ps.len() && #[trigger] ps[i].0 == f
}

/// Field names are pairwise distinct within one entry.
pub open spec fn pairs_unique(ps: Seq<(Seq<char>, Seq<char>)>) -> bool {
    forall|i: int, j: int| 0 <= i < j < ps.len() ==> (#[trigger] ps[i].0) != (#[trigger] ps[j].0)
}

/// Inserting or overwriting one field of an entry.
pub open spec fn pairs_upsert(
    ps: Seq<(Seq<char>, Seq<char>)>,
    f: Seq<char>,
    v: Seq<char>,
) -> Seq<(Seq<char>, Seq<char>)> {
    if pair_has(ps, f) {
        ps.update(pair_idx(ps, f), (f, v))
    } else {
        ps.push((f, v))
    }
}

/// A stream of entries, oldest first.
pub struct Stream {
    name: String,
    entries: VecDeque<StreamEntry>,
}

/// One entry of a stream: an id and its named field values.
pub struct StreamEntry {
    id: String,
    fields: Vec<(String, String)>,
}

impl Stream {
    pub closed spec fn spec_name(self) -> Seq<char> {
        self.name@
    }

    /// The stream's entries, oldest first.
    pub closed spec fn spec_entries(self) -> Seq<StreamEntry> {
        self.entries@
    }

    pub closed spec fn spec_len(self) -> nat {
        self.entries@.len()
    }

    pub fn new(name: String) -> (r: Self)
        ensures
            r.spec_name() == name@,
            r.spec_entries() == Seq::<StreamEntry>::empty(),
            r.spec_len() == 0,
    {
        let r = Stream { name, entries: VecDeque::new() };
        proof {
            assert(r.spec_entries() =~= Seq::<StreamEntry>::empty());
        }
        r
    }

    /// Replaces the name and the entries wholesale; the previous
    /// contents are discarded.
    pub fn set_name_and_entries(&mut self, name: String, entries: VecDeque<StreamEntry>)
        ensures
            final(self).spec_name() == name@,
            final(self).spec_entries() == entries@,
            final(self).spec_len() == entries@.len(),
    {
        self.name = name;
        self.entries = entries;
    }
}

impl StreamEntry {
    pub closed spec fn spec_id(self) -> Seq<char> {
        self.id@
    }

    pub closed spec fn spec_fields(self) -> Seq<(Seq<char>, Seq<char>)> {
        pairs_view(self.fields@)
    }

    /// Field names stay pairwise distinct.
    pub open spec fn inv(self) -> bool {
        pairs_unique(self.spec_fields())
    }

    /// A fresh entry with no fields; its id is assigned by the stream
    /// that accepts it.
    pub fn new() -> (r: Self)
        ensures
            r.inv(),
            r.spec_id() == Seq::<char>::empty(),
            r.spec_fields() == Seq::<(Seq<char>, Seq<char>)>::empty(),
    {
        let r = StreamEntry { id: String::new(), fields: Vec::new() };
        proof {
            assert(r.spec_fields() =~= Seq::<(Seq<char>, Seq<char>)>::empty());
        }
        r
    }

    /// Sets one field, overwriting a previous value for the same name.
    pub fn set_field(&mut self, field: &str, value: &str)
        requires
            old(self).inv(),
        ensures
            final(self).inv(),
            final(self).spec_id() == old(self).spec_id(),
            final(self).spec_fields() == pairs_upsert(old(self).spec_fields(), field@, value@),
    {
        let ghost ps = pairs_view(self.fields@);
        let fo: String = field.to_owned();
        let vo: String = value.to_owned();
        let mut i: usize = 0;
        while i < self.fields.len()
            invariant
                i <= self.fields@.len(),
                self.id == old(self).id,
                self.fields@ == old(self).fields@,
                ps == pairs_view(self.fields@),
                fo@ == field@,
                vo@ == value@,
                pairs_unique(ps),
                forall|t: int| 0 <= t < i ==> (#[trigger] ps[t].0) != field@,
            decreases self.fields@.len() - i,
        {
            if self.fields[i].0 == fo {
                proof {
                    assert(ps[i as int].0 == field@);
                    assert(pair_has(ps, field@));
                }
                let ghost pvec = self.fields@;
                self.fields.remove(i);
                self.fields.insert(i, (fo, vo));
                proof {
                    assert(self.fields@ =~= pvec.update(i as int, self.fields@[i as int]));
                    let jj = pair_idx(ps, field@);
                    assert(0 <= jj < ps.len() && ps[jj].0 == field@);
                    if jj != i {
                        assert(ps[jj].0 != ps[i as int].0);
                    }
                    let tv = ps.update(i as int, (field@, value@));
                    assert(pairs_view(self.fields@) =~= tv);
                    assert forall|a: int, b: int| 0 <= a < b < tv.len() implies (
                    #[trigger] tv[a].0) != (#[trigger] tv[b].0) by {
                        assert(tv[a].0 == ps[a].0 && tv[b].0 == ps[b].0);
                    }
                }
                return;
            }
            i = i + 1;
        }
        proof {
            if pair_has(ps, field@) {
                let t = pair_idx(ps, field@);
                assert(0 <= t < ps.len() && ps[t].0 == field@);
            }
        }
        self.fields.push((fo, vo));
        proof {
            let tv = ps.push((field@, value@));
            assert(pairs_view(self.fields@) =~= tv);
            assert forall|a: int, b: int| 0 <= a < b < tv.len() implies (#[trigger] tv[a].0)
                != (#[trigger] tv[b].0) by {
                if b == ps.len() {
                    assert(tv[a].0 == ps[a].0);
                    if ps[a].0 == field@ {
                        assert(pair_has(ps, field@));
                    }
                } else {
                    assert(tv[a].0 == ps[a].0 && tv[b].0 == ps[b].0);
                }
            }
        }
    }
}

} // verus!
