//! Event model and catalog lookup.
//!
//! A hardware event is identified by a symbolic name; a catalog maps names to
//! resolved encodings. The catalog is injected as plain data, so lookups are
//! verified here and any source (a static database, a fixture) can supply it.
//! Names that fail to resolve are collected and reported rather than being
//! fatal: group building proceeds with the resolvable subset.

use vstd::prelude::*;

verus! {

/// Whether a counter is scoped to one CPU core or to shared socket-level
/// resources.
#[derive(Clone, Copy, Debug, PartialEq, Eq, Structural)]
pub enum CounterClass {
    Core,
    Uncore,
}

/// Whether an event occupies a programmable counter register (limited in
/// number per class) or a fixed register wired to that one event (which does
/// not consume programmable capacity).
#[derive(Clone, Copy, Debug, PartialEq, Eq, Structural)]
pub enum SlotKind {
    Programmable,
    Fixed,
}

/// A resolved hardware event: symbolic name, raw encoding bits, counter
/// class, and slot kind. Immutable once resolved.
pub struct EventEncoding {
    pub name: String,
    pub code: u64,
    pub class: CounterClass,
    pub slot: SlotKind,
}

impl EventEncoding {
    /// An equal copy of this encoding.
    pub fn duplicate(&self) -> (r: Self)
        ensures
            r == *self,
    {
        EventEncoding { name: self.name.clone(), code: self.code, class: self.class, slot: self.slot }
    }
}

/// A read-only catalog of resolved events, queried by symbolic name.
pub struct EventCatalog {
    pub entries: Vec<EventEncoding>,
}

/// The encoding that a lookup of `name` yields: the first catalog entry
/// carrying that name, if any.
pub open spec fn resolve_name(entries: Seq<EventEncoding>, name: Seq<char>) -> Option<EventEncoding>
    decreases entries.len(),
{
    if entries.len() == 0 {
        None
    } else if entries[0].name@ == name {
        Some(entries[0])
    } else {
        resolve_name(entries.skip(1), name)
    }
}

/// The resolvable events of a ranked name list, in rank order.
pub open spec fn resolved_events(entries: Seq<EventEncoding>, names: Seq<String>) -> Seq<EventEncoding>
    decreases names.len(),
{
    if names.len() == 0 {
        Seq::empty()
    } else {
        let head = resolved_events(entries, names.drop_last());
        match resolve_name(entries, names.last()@) {
            Some(e) => head.push(e),
            None => head,
        }
    }
}

/// The names of a ranked list that the catalog cannot resolve, in rank order.
pub open spec fn unknown_names(entries: Seq<EventEncoding>, names: Seq<String>) -> Seq<Seq<char>>
    decreases names.len(),
{
    if names.len() == 0 {
        Seq::empty()
    } else {
        let head = unknown_names(entries, names.drop_last());
        match resolve_name(entries, names.last()@) {
            Some(e) => head,
            None => head.push(names.last()@),
        }
    }
}

/// A resolved lookup returns an entry that indeed carries the looked-up name.
pub proof fn lemma_resolve_name_matches(entries: Seq<EventEncoding>, name: Seq<char>)
    ensures
        resolve_name(entries, name) matches Some(e) ==> e.name@ == name,
        resolve_name(entries, name) is Some <==> exists|j: int|
            0 <= j < entries.len() && #[trigger] entries[j].name@ == name,
    decreases entries.len(),
{
    if entries.len() > 0 {
        lemma_resolve_name_matches(entries.skip(1), name);
        if entries[0].name@ != name {
            assert forall|j: int| 0 <= j < entries.len() && #[trigger] entries[j].name@ == name
                implies resolve_name(entries, name) is Some by {
                assert(entries.skip(1)[j - 1].name@ == name);
            }
            if resolve_name(entries.skip(1), name) is Some {
                let j = choose|j: int|
                    0 <= j < entries.skip(1).len() && #[trigger] entries.skip(1)[j].name@ == name;
                assert(entries[j + 1].name@ == name);
            }
        }
    }
}

impl EventCatalog {
    /// Looks a symbolic name up: the first entry with that name, or `None`
    /// when the catalog does not know it.
    pub fn resolve(&self, name: &String) -> (r: Option<EventEncoding>)
        ensures
            r == resolve_name(self.entries@, name@),
    {
        let n = self.entries.len();
        let mut i: usize = 0;
        proof {
            assert(self.entries@.skip(0) =~= self.entries@);
        }
        while i < n
            invariant
                n == self.entries@.len(),
                i <= n,
                resolve_name(self.entries@, name@) == resolve_name(self.entries@.skip(i as int), name@),
            decreases n - i,
        {
            if self.entries[i].name.eq(name) {
                proof {
                    assert(self.entries@.skip(i as int)[0] == self.entries@[i as int]);
                }
                return Some(self.entries[i].duplicate());
            }
            proof {
                assert(self.entries@.skip(i as int)[0] == self.entries@[i as int]);
                assert(self.entries@.skip(i as int).skip(1) =~= self.entries@.skip(i + 1));
            }
            i = i + 1;
        }
        None
    }

    /// Splits a ranked name list into the resolvable events and the unknown
    /// names, each in rank order.
    pub fn resolve_ranking(&self, names: &Vec<String>) -> (r: (Vec<EventEncoding>, Vec<String>))
        ensures
            r.0@ == resolved_events(self.entries@, names@),
            r.1@.map_values(|s: String| s@) == unknown_names(self.entries@, names@),
    {
        let mut resolved: Vec<EventEncoding> = Vec::new();
        let mut unknown: Vec<String> = Vec::new();
        let n = names.len();
        let mut i: usize = 0;
        while i < n
            invariant
                n == names@.len(),
                i <= n,
                resolved@ == resolved_events(self.entries@, names@.take(i as int)),
                unknown@.map_values(|s: String| s@) == unknown_names(self.entries@, names@.take(i as int)),
            decreases n - i,
        {
            let ghost pre = names@.take(i as int);
            proof {
                assert(names@.take(i + 1).drop_last() =~= pre);
                assert(names@.take(i + 1).last() == names@[i as int]);
            }
            match self.resolve(&names[i]) {
                Some(e) => {
                    resolved.push(e);
                }
                None => {
                    let ghost u0 = unknown@;
                    unknown.push(names[i].clone());
                    proof {
                        assert(unknown@.map_values(|s: String| s@) =~= u0.map_values(
                            |s: String| s@,
                        ).push(names@[i as int]@));
                    }
                }
            }
            i = i + 1;
        }
        proof {
            assert(names@.take(n as int) =~= names@);
        }
        (resolved, unknown)
    }

    /// The standalone lookup aid: the ranked names that this catalog cannot
    /// resolve, for catalog maintenance.
    pub fn unresolved(&self, names: &Vec<String>) -> (r: Vec<String>)
        ensures
            r@.map_values(|s: String| s@) == unknown_names(self.entries@, names@),
    {
        let (_resolved, unknown) = self.resolve_ranking(names);
        unknown
    }
}

} // verus!
