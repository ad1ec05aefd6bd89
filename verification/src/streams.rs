//! The engine-side stream stub: streams are accepted as a value shape
//! but the append-style verbs have no engine effect yet; every call
//! acknowledges and leaves the stream untouched.

use vstd::prelude::*;
use std::collections::VecDeque;

verus! {

/// A stream of entries held by the engine, oldest first.
pub struct Stream {
    name: String,
    entries: VecDeque<StreamEntry>,
}

/// One entry of an engine-side stream.
pub struct StreamEntry {
    id: String,
    fields: Vec<(String, String)>,
}

impl Stream {
    pub closed spec fn spec_name(self) -> Seq<char> {
        self.name@
    }

    pub closed spec fn spec_len(self) -> nat {
        self.entries@.len()
    }

    pub fn new(name: String) -> (r: Self)
        ensures
            r.spec_name() == name@,
            r.spec_len() == 0,
    {
        Stream { name, entries: VecDeque::new() }
    }

    /// Accepts an append and acknowledges it without recording it.
    pub fn xadd(&mut self, entry_fields: Vec<(String, String)>) -> (r: Result<(), ()>)
        ensures
            r is Ok,
            *final(self) == *old(self),
    {
        let _ = entry_fields;
        Ok(())
    }

    /// Accepts a read from `id` on and acknowledges it.
    pub fn xread(&mut self, id: &str) -> (r: Result<(), ()>)
        ensures
            r is Ok,
            *final(self) == *old(self),
    {
        let _ = id;
        Ok(())
    }

    /// Accepts a range read and acknowledges it.
    pub fn xrange(&mut self, start: &str, end: &str) -> (r: Result<(), ()>)
        ensures
            r is Ok,
            *final(self) == *old(self),
    {
        let _ = start;
        let _ = end;
        Ok(())
    }
}

impl StreamEntry {
    pub closed spec fn spec_id(self) -> Seq<char> {
        self.id@
    }

    pub closed spec fn spec_fields_len(self) -> nat {
        self.fields@.len()
    }

    pub fn new(id: String) -> (r: Self)
        ensures
            r.spec_id() == id@,
            r.spec_fields_len() == 0,
    {
        StreamEntry { id, fields: Vec::new() }
    }
}

} // verus!
