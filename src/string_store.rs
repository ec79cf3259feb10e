//! Interning of sound file paths into small integer handles.
use vstd::prelude::*;
use crate::search::{
    first_index_of, lemma_first_index_found, lemma_first_index_prefix, lemma_not_found_distinct,
};

verus! {

/// Number of distinct strings a store can hold: one per `u16` handle.
pub const STORE_CAPACITY: usize = 65536;

/// Stores up to 65536 distinct strings, each identified by the `u16` handle
/// given to it on first sight.
pub struct StringStore {
    list: Vec<String>,
}

impl View for StringStore {
    type V = Seq<Seq<char>>;

    closed spec fn view(&self) -> Seq<Seq<char>> {
        self.list@.map_values(|s: String| s@)
    }
}

/// No string occurs twice.
pub open spec fn all_distinct(list: Seq<Seq<char>>) -> bool {
    forall|i: int, j: int| 0 <= i < j < list.len() ==> list[i] != list[j]
}

/// One interning step on a store holding `store`: the store afterwards and
/// the handle returned.
pub open spec fn intern(store: Seq<Seq<char>>, s: Seq<char>) -> (Seq<Seq<char>>, Option<u16>) {
    match first_index_of(store, s) {
        Some(i) => (store, Some(i as u16)),
        None => if store.len() < STORE_CAPACITY {
            (store.push(s), Some(store.len() as u16))
        } else {
            (store, None)
        },
    }
}

/// Interning each of `strs` in turn: the store afterwards and the handles
/// returned, one per call.
pub open spec fn intern_all(store: Seq<Seq<char>>, strs: Seq<Seq<char>>) -> (Seq<Seq<char>>, Seq<Option<u16>>)
    decreases strs.len(),
{
    if strs.len() == 0 {
        (store, Seq::empty())
    } else {
        let (before, handles) = intern_all(store, strs.drop_last());
        let (after, h) = intern(before, strs.last());
        (after, handles.push(h))
    }
}

/// The distinct strings of `strs`, in the order each is first seen.
pub open spec fn first_seen(strs: Seq<Seq<char>>) -> Seq<Seq<char>>
    decreases strs.len(),
{
    if strs.len() == 0 {
        Seq::empty()
    } else {
        let rest = first_seen(strs.drop_last());
        if rest.contains(strs.last()) { rest } else { rest.push(strs.last()) }
    }
}

impl StringStore {
    /// The store's invariant: distinct entries, at most one per handle.
    pub open spec fn wf(&self) -> bool {
        &&& all_distinct(self@)
        &&& self@.len() <= STORE_CAPACITY
    }

    /// Makes an empty store with room reserved for `capacity` strings.
    pub fn with_capacity(capacity: usize) -> (r: Self)
        ensures
            r.wf(),
            r@ == Seq::<Seq<char>>::empty(),
    {
        let r = StringStore { list: Vec::with_capacity(capacity) };
        proof {
            assert(r@ =~= Seq::<Seq<char>>::empty());
        }
        r
    }

    /// Number of strings stored.
    pub fn len(&self) -> (r: usize)
        ensures
            r == self@.len(),
    {
        self.list.len()
    }

    /// The string that `handle` stands for.
    pub fn index(&self, handle: u16) -> (r: &String)
        requires
            (handle as int) < self@.len(),
        ensures
            r@ == self@[handle as int],
    {
        &self.list[handle as usize]
    }

    /// Returns the handle of `string`, storing it first if it is new.
    /// A string already present keeps its handle, found by an exact match
    /// against every stored string. A new string gets the next handle in
    /// first-seen order, starting at 0, while fewer than 65536 strings are
    /// stored; once the store is full a new string gets `None`.
    pub fn get_handle(&mut self, string: &str) -> (r: Option<u16>)
        requires
            old(self).wf(),
        ensures
            final(self).wf(),
            (final(self)@, r) == intern(old(self)@, string@),
    {
        let owned = string.to_owned();
        let n = self.list.len();
        let mut id: usize = 0;
        while id < n
            invariant
                n == self.list.len(),
                self.wf(),
                self@ == old(self)@,
                n <= STORE_CAPACITY,
                id <= n,
                owned@ == string@,
                first_index_of(self@.take(id as int), string@) is None,
            decreases n - id,
        {
            proof {
                assert(self@.take(id as int + 1).drop_last() =~= self@.take(id as int));
            }
            if self.list[id] == owned {
                proof {
                    assert(first_index_of(self@.take(id as int + 1), string@) == Some(id as int));
                    lemma_first_index_prefix(self@, string@, id as int + 1);
                }
                return Some(id as u16);
            }
            id = id + 1;
        }
        proof {
            assert(self@.take(n as int) =~= self@);
        }
        if n < STORE_CAPACITY {
            let ghost before = self@;
            self.list.push(owned);
            proof {
                assert(self@ =~= before.push(string@));
                lemma_not_found_distinct(before, string@);
            }
            Some(n as u16)
        } else {
            None
        }
    }
}

/// A store that already holds `s` keeps its contents, and a store without
/// it gains `s` at the end or, when full, stays as it is.
proof fn lemma_intern_step(store: Seq<Seq<char>>, s: Seq<char>)
    requires
        all_distinct(store),
        store.len() <= STORE_CAPACITY,
    ensures
        ({
            let (after, h) = intern(store, s);
            &&& all_distinct(after)
            &&& store.len() <= after.len() <= STORE_CAPACITY
            &&& after.subrange(0, store.len() as int) == store
            &&& (h matches Some(k) ==> k < after.len() && after[k as int] == s)
            &&& (h is None ==> after.len() == STORE_CAPACITY && !after.contains(s))
        }),
{
    let (after, h) = intern(store, s);
    match first_index_of(store, s) {
        Some(i) => {
            lemma_first_index_found(store, s);
            assert(store.subrange(0, store.len() as int) =~= store);
        },
        None => {
            lemma_not_found_distinct(store, s);
            if store.len() < STORE_CAPACITY {
                assert(after.subrange(0, store.len() as int) =~= store);
            } else {
                assert(store.subrange(0, store.len() as int) =~= store);
            }
        },
    }
}

/// Interning uniqueness: over any sequence of calls, every handle returned
/// names the string it was returned for, so equal strings get equal handles
/// and distinct strings get distinct handles. Handles handed out earlier stay
/// valid, and a call returns no handle only when the store is full and lacks
/// the string.
pub proof fn lemma_interning_uniqueness(store: Seq<Seq<char>>, strs: Seq<Seq<char>>)
    requires
        all_distinct(store),
        store.len() <= STORE_CAPACITY,
    ensures
        ({
            let (after, handles) = intern_all(store, strs);
            &&& handles.len() == strs.len()
            &&& all_distinct(after)
            &&& store.len() <= after.len() <= STORE_CAPACITY
            &&& after.subrange(0, store.len() as int) == store
            &&& forall|i: int| 0 <= i < strs.len() && handles[i] is Some ==>
                    handles[i]->0 < after.len() && after[handles[i]->0 as int] == strs[i]
            &&& forall|i: int, j: int| 0 <= i < strs.len() && 0 <= j < strs.len()
                    && handles[i] is Some && handles[j] is Some ==>
                    (handles[i] == handles[j] <==> strs[i] == strs[j])
            &&& forall|i: int| 0 <= i < strs.len() && handles[i] is None ==>
                    after.len() == STORE_CAPACITY && !after.contains(strs[i])
        }),
    decreases strs.len(),
{
    if strs.len() > 0 {
        let prefix = strs.drop_last();
        lemma_interning_uniqueness(store, prefix);
        let (before, hs) = intern_all(store, prefix);
        lemma_intern_step(before, strs.last());
        let (after, handles) = intern_all(store, strs);
        assert(after.subrange(0, before.len() as int).subrange(0, store.len() as int)
            =~= after.subrange(0, store.len() as int));
        assert forall|i: int| 0 <= i < strs.len() && handles[i] is Some implies
            handles[i]->0 < after.len() && after[handles[i]->0 as int] == strs[i] by {
            if i < prefix.len() {
                assert(handles[i] == hs[i]);
                assert(strs[i] == prefix[i]);
                assert(after.subrange(0, before.len() as int)[handles[i]->0 as int]
                    == after[handles[i]->0 as int]);
            }
        }
        assert forall|i: int| 0 <= i < strs.len() && handles[i] is None implies
            after.len() == STORE_CAPACITY && !after.contains(strs[i]) by {
            if i < prefix.len() {
                assert(handles[i] == hs[i]);
                assert(strs[i] == prefix[i]);
                assert(before.len() == STORE_CAPACITY);
                assert(after =~= before);
            }
        }
    }
}

/// First-seen order: interning a sequence into an empty store, with room for
/// all its distinct strings, leaves the store holding those strings in the
/// order each was first seen, so each string's handle is the position of its
/// first sighting among them, counted from 0.
pub proof fn lemma_first_seen_order(strs: Seq<Seq<char>>)
    requires
        first_seen(strs).len() <= STORE_CAPACITY,
    ensures
        ({
            let (after, handles) = intern_all(Seq::empty(), strs);
            &&& after == first_seen(strs)
            &&& forall|i: int| 0 <= i < strs.len() ==>
                    handles[i] is Some && after[handles[i]->0 as int] == strs[i]
        }),
    decreases strs.len(),
{
    lemma_interning_uniqueness(Seq::empty(), strs);
    if strs.len() > 0 {
        let prefix = strs.drop_last();
        lemma_first_seen_len(strs);
        lemma_first_seen_order(prefix);
        let (before, hs) = intern_all(Seq::empty(), prefix);
        lemma_interning_uniqueness(Seq::empty(), prefix);
        lemma_intern_step(before, strs.last());
        match first_index_of(before, strs.last()) {
            Some(k) => {
                lemma_first_index_found(before, strs.last());
            },
            None => {
                lemma_not_found_distinct(before, strs.last());
            },
        }
    }
}

proof fn lemma_first_seen_len(strs: Seq<Seq<char>>)
    requires
        strs.len() > 0,
    ensures
        first_seen(strs.drop_last()).len() <= first_seen(strs).len(),
{
}

/// Capacity bound: once a store holds 65536 strings, a string not among them
/// gets no handle, and the store, with every handle already given, is left
/// as it was.
pub proof fn lemma_capacity_bound(store: Seq<Seq<char>>, s: Seq<char>)
    requires
        all_distinct(store),
        store.len() == STORE_CAPACITY,
        !store.contains(s),
    ensures
        intern(store, s) == (store, None::<u16>),
{
    if first_index_of(store, s) is Some {
        lemma_first_index_found(store, s);
    }
}

} // verus!
