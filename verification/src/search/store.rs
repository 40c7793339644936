//! Hash-based sets and maps of states, backed by `rustc_hash`'s `FxHashSet` and `FxHashMap`.
//!
//! Each collection keeps its hash table in a private field; what it holds is named by a
//! specification function, and every operation states what it does to that content. The
//! order in which a table is walked is never stated.

use vstd::prelude::*;

use rustc_hash::{FxHashMap, FxHashSet};

use crate::scenario::State;

verus! {

/// `s` is finite with `n` elements.
pub open spec fn finite_with_len<A>(s: Set<A>, n: nat) -> bool {
    s.finite() && s.len() == n
}

/// A set of states.
#[verifier::external_body]
pub struct StateSet {
    inner: FxHashSet<State>,
}

/// The states that a [`StateSet`] holds.
pub uninterp spec fn state_set_contents(s: StateSet) -> Set<State>;

impl StateSet {
    /// The states held, as a mathematical set.
    pub open spec fn view_set(&self) -> Set<State> {
        state_set_contents(*self)
    }

    /// An empty set (`FxHashSet::default`).
    #[verifier::external_body]
    pub fn new() -> (s: StateSet)
        ensures
            state_set_contents(s) == Set::<State>::empty(),
    {
        StateSet { inner: FxHashSet::default() }
    }

    /// Number of states held (`HashSet::len`); the set is finite.
    #[verifier::external_body]
    pub fn len(&self) -> (n: usize)
        ensures
            finite_with_len(state_set_contents(*self), n as nat),
    {
        self.inner.len()
    }

    /// Membership (`HashSet::contains`).
    #[verifier::external_body]
    pub fn contains(&self, s: &State) -> (b: bool)
        ensures
            b == state_set_contents(*self).contains(*s),
    {
        self.inner.contains(s)
    }

    /// Adds `s` (`HashSet::insert`); true when it was not held before.
    #[verifier::external_body]
    pub fn insert(&mut self, s: State) -> (b: bool)
        ensures
            state_set_contents(*final(self)) == state_set_contents(*old(self)).insert(s),
            b == !state_set_contents(*old(self)).contains(s),
    {
        self.inner.insert(s)
    }

    /// Removes `s` (`HashSet::remove`); true when it was held before.
    #[verifier::external_body]
    pub fn remove(&mut self, s: &State) -> (b: bool)
        ensures
            state_set_contents(*final(self)) == state_set_contents(*old(self)).remove(*s),
            b == state_set_contents(*old(self)).contains(*s),
    {
        self.inner.remove(s)
    }

    /// The states held, each once, in the table's own order (`HashSet::iter`).
    #[verifier::external_body]
    pub fn to_vec(&self) -> (v: Vec<State>)
        ensures
            v@.to_set() == state_set_contents(*self),
            v@.no_duplicates(),
            finite_with_len(state_set_contents(*self), v@.len()),
    {
        self.inner.iter().copied().collect()
    }

    /// Reserves room for `additional` more states (`HashSet::try_reserve`); false when the
    /// allocation failed. The states held never change.
    #[verifier::external_body]
    pub fn try_reserve(&mut self, additional: usize) -> (ok: bool)
        ensures
            state_set_contents(*final(self)) == state_set_contents(*old(self)),
    {
        self.inner.try_reserve(additional).is_ok()
    }

    /// Every state of `self` is in `other`.
    pub fn is_subset(&self, other: &StateSet) -> (b: bool)
        ensures
            b == self.view_set().subset_of(other.view_set()),
    {
        let v = self.to_vec();
        let mut i: usize = 0;
        while i < v.len()
            invariant
                i <= v@.len(),
                v@.to_set() == self.view_set(),
                forall|j: int| 0 <= j < i ==> other.view_set().contains(#[trigger] v@[j]),
            decreases v@.len() - i,
        {
            if !other.contains(&v[i]) {
                proof {
                    assert(v@.to_set().contains(v@[i as int]));
                }
                return false;
            }
            i += 1;
        }
        proof {
            assert forall|s: State| self.view_set().contains(s) implies other.view_set().contains(s) by {
                assert(v@.to_set().contains(s));
                let j = choose|j: int| 0 <= j < v@.len() && v@[j] == s;
                assert(other.view_set().contains(v@[j]));
            }
        }
        true
    }
}

/// A map from states to indices.
#[verifier::external_body]
pub struct StateIndex {
    inner: FxHashMap<State, usize>,
}

/// The entries of a [`StateIndex`].
pub uninterp spec fn state_index_contents(m: StateIndex) -> Map<State, usize>;

impl StateIndex {
    /// The entries, as a mathematical map.
    pub open spec fn view_map(&self) -> Map<State, usize> {
        state_index_contents(*self)
    }

    /// An empty map (`FxHashMap::default`).
    #[verifier::external_body]
    pub fn new() -> (m: StateIndex)
        ensures
            state_index_contents(m).dom() == Set::<State>::empty(),
    {
        StateIndex { inner: FxHashMap::default() }
    }

    /// The index of `s`, if it has one (`HashMap::get`).
    #[verifier::external_body]
    pub fn get(&self, s: &State) -> (r: Option<usize>)
        ensures
            r == (if state_index_contents(*self).contains_key(*s) { Some(state_index_contents(*self)[*s]) } else { None::<usize> }),
    {
        self.inner.get(s).copied()
    }

    /// Sets the index of `s` (`HashMap::insert`).
    #[verifier::external_body]
    pub fn insert(&mut self, s: State, i: usize)
        ensures
            state_index_contents(*final(self)) == state_index_contents(*old(self)).insert(s, i),
    {
        self.inner.insert(s, i);
    }

    /// Reserves room for `additional` more entries (`HashMap::try_reserve`); false when the
    /// allocation failed. The entries never change.
    #[verifier::external_body]
    pub fn try_reserve(&mut self, additional: usize) -> (ok: bool)
        ensures
            state_index_contents(*final(self)) == state_index_contents(*old(self)),
    {
        self.inner.try_reserve(additional).is_ok()
    }
}

/// A map from states to states (a memoryless strategy).
#[verifier::external_body]
pub struct StateMoves {
    inner: FxHashMap<State, State>,
}

/// The entries of a [`StateMoves`].
pub uninterp spec fn state_moves_contents(m: StateMoves) -> Map<State, State>;

impl StateMoves {
    /// The entries, as a mathematical map.
    pub open spec fn view_map(&self) -> Map<State, State> {
        state_moves_contents(*self)
    }

    /// An empty map (`FxHashMap::default`).
    #[verifier::external_body]
    pub fn new() -> (m: StateMoves)
        ensures
            state_moves_contents(m).dom() == Set::<State>::empty(),
    {
        StateMoves { inner: FxHashMap::default() }
    }

    /// Number of entries (`HashMap::len`); the map is finite.
    #[verifier::external_body]
    pub fn len(&self) -> (n: usize)
        ensures
            finite_with_len(state_moves_contents(*self).dom(), n as nat),
    {
        self.inner.len()
    }

    /// The state mapped from `s`, if any (`HashMap::get`).
    #[verifier::external_body]
    pub fn get(&self, s: &State) -> (r: Option<State>)
        ensures
            r == (if state_moves_contents(*self).contains_key(*s) { Some(state_moves_contents(*self)[*s]) } else { None::<State> }),
    {
        self.inner.get(s).copied()
    }

    /// `s` has an entry (`HashMap::contains_key`).
    #[verifier::external_body]
    pub fn contains_key(&self, s: &State) -> (b: bool)
        ensures
            b == state_moves_contents(*self).contains_key(*s),
    {
        self.inner.contains_key(s)
    }

    /// Maps `s` to `t` (`HashMap::insert`).
    #[verifier::external_body]
    pub fn insert(&mut self, s: State, t: State)
        ensures
            state_moves_contents(*final(self)) == state_moves_contents(*old(self)).insert(s, t),
    {
        self.inner.insert(s, t);
    }

    /// The entries, each once, in the table's own order (`HashMap::iter`).
    #[verifier::external_body]
    pub fn to_vec(&self) -> (v: Vec<(State, State)>)
        ensures
            finite_with_len(state_moves_contents(*self).dom(), v@.len()),
            forall|i: int| 0 <= i < v@.len() ==> #[trigger] state_moves_contents(*self).contains_key(v@[i].0)
                && state_moves_contents(*self)[v@[i].0] == v@[i].1,
            forall|s: State| #[trigger] state_moves_contents(*self).contains_key(s) ==> exists|i: int| 0 <= i < v@.len() && v@[i].0 == s,
            forall|i: int, j: int| 0 <= i < j < v@.len() ==> #[trigger] v@[i].0 != #[trigger] v@[j].0,
    {
        self.inner.iter().map(|(k, v)| (*k, *v)).collect()
    }
}

/// A map from states to depths.
#[verifier::external_body]
pub struct StateDepths {
    inner: FxHashMap<State, u32>,
}

/// The entries of a [`StateDepths`].
pub uninterp spec fn state_depths_contents(m: StateDepths) -> Map<State, u32>;

impl StateDepths {
    /// The entries, as a mathematical map.
    pub open spec fn view_map(&self) -> Map<State, u32> {
        state_depths_contents(*self)
    }

    /// An empty map (`FxHashMap::default`).
    #[verifier::external_body]
    pub fn new() -> (m: StateDepths)
        ensures
            state_depths_contents(m).dom() == Set::<State>::empty(),
    {
        StateDepths { inner: FxHashMap::default() }
    }

    /// Number of entries (`HashMap::len`); the map is finite.
    #[verifier::external_body]
    pub fn len(&self) -> (n: usize)
        ensures
            finite_with_len(state_depths_contents(*self).dom(), n as nat),
    {
        self.inner.len()
    }

    /// The depth of `s`, if any (`HashMap::get`).
    #[verifier::external_body]
    pub fn get(&self, s: &State) -> (r: Option<u32>)
        ensures
            r == (if state_depths_contents(*self).contains_key(*s) { Some(state_depths_contents(*self)[*s]) } else { None::<u32> }),
    {
        self.inner.get(s).copied()
    }

    /// Sets the depth of `s` (`HashMap::insert`).
    #[verifier::external_body]
    pub fn insert(&mut self, s: State, d: u32)
        ensures
            state_depths_contents(*final(self)) == state_depths_contents(*old(self)).insert(s, d),
    {
        self.inner.insert(s, d);
    }

    /// Reserves room for `additional` more entries (`HashMap::try_reserve`); false when the
    /// allocation failed. The entries never change.
    #[verifier::external_body]
    pub fn try_reserve(&mut self, additional: usize) -> (ok: bool)
        ensures
            state_depths_contents(*final(self)) == state_depths_contents(*old(self)),
    {
        self.inner.try_reserve(additional).is_ok()
    }
}

/// A map from states to lists of states (cached move lists).
#[verifier::external_body]
pub struct StateLists {
    inner: FxHashMap<State, Vec<State>>,
}

/// The entries of a [`StateLists`].
pub uninterp spec fn state_lists_contents(m: StateLists) -> Map<State, Seq<State>>;

impl StateLists {
    /// The entries, as a mathematical map.
    pub open spec fn view_map(&self) -> Map<State, Seq<State>> {
        state_lists_contents(*self)
    }

    /// An empty map (`FxHashMap::default`).
    #[verifier::external_body]
    pub fn new() -> (m: StateLists)
        ensures
            state_lists_contents(m).dom() == Set::<State>::empty(),
    {
        StateLists { inner: FxHashMap::default() }
    }

    /// Number of entries (`HashMap::len`); the map is finite.
    #[verifier::external_body]
    pub fn len(&self) -> (n: usize)
        ensures
            finite_with_len(state_lists_contents(*self).dom(), n as nat),
    {
        self.inner.len()
    }

    /// A copy of the list stored for `s`, if any (`HashMap::get`).
    #[verifier::external_body]
    pub fn get(&self, s: &State) -> (r: Option<Vec<State>>)
        ensures
            match r {
                Some(v) => state_lists_contents(*self).contains_key(*s) && v@ == state_lists_contents(*self)[*s],
                None => !state_lists_contents(*self).contains_key(*s),
            },
    {
        self.inner.get(s).cloned()
    }

    /// Stores `v` for `s` (`HashMap::insert`).
    #[verifier::external_body]
    pub fn insert(&mut self, s: State, v: Vec<State>)
        ensures
            state_lists_contents(*final(self)) == state_lists_contents(*old(self)).insert(s, v@),
    {
        self.inner.insert(s, v);
    }

    /// Removes the entry of `s` (`HashMap::remove`).
    #[verifier::external_body]
    pub fn remove(&mut self, s: &State)
        ensures
            state_lists_contents(*final(self)) == state_lists_contents(*old(self)).remove(*s),
    {
        self.inner.remove(s);
    }

    /// Some entry, as its key and the length of its list, or `None` when the map is empty
    /// (the first entry of `HashMap::iter`; which one is not stated).
    #[verifier::external_body]
    pub fn any_entry(&self) -> (r: Option<(State, usize)>)
        ensures
            match r {
                Some((k, n)) => state_lists_contents(*self).contains_key(k) && n == state_lists_contents(*self)[k].len(),
                None => state_lists_contents(*self).dom() == Set::<State>::empty(),
            },
    {
        self.inner.iter().next().map(|(k, v)| (*k, v.len()))
    }

    /// Reserves room for `additional` more entries (`HashMap::try_reserve`); false when the
    /// allocation failed. The entries never change.
    #[verifier::external_body]
    pub fn try_reserve(&mut self, additional: usize) -> (ok: bool)
        ensures
            state_lists_contents(*final(self)) == state_lists_contents(*old(self)),
    {
        self.inner.try_reserve(additional).is_ok()
    }
}

/// A map from states to u32 ids.
#[verifier::external_body]
pub struct StateIds {
    inner: FxHashMap<State, u32>,
}

/// The entries of a [`StateIds`].
pub uninterp spec fn state_ids_contents(m: StateIds) -> Map<State, u32>;

impl StateIds {
    /// The entries, as a mathematical map.
    pub open spec fn view_map(&self) -> Map<State, u32> {
        state_ids_contents(*self)
    }

    /// An empty map (`FxHashMap::default`).
    #[verifier::external_body]
    pub fn new() -> (m: StateIds)
        ensures
            state_ids_contents(m).dom() == Set::<State>::empty(),
    {
        StateIds { inner: FxHashMap::default() }
    }

    /// The id of `s`, if any (`HashMap::get`).
    #[verifier::external_body]
    pub fn get(&self, s: &State) -> (r: Option<u32>)
        ensures
            r == (if state_ids_contents(*self).contains_key(*s) { Some(state_ids_contents(*self)[*s]) } else { None::<u32> }),
    {
        self.inner.get(s).copied()
    }

    /// Sets the id of `s` (`HashMap::insert`).
    #[verifier::external_body]
    pub fn insert(&mut self, s: State, id: u32)
        ensures
            state_ids_contents(*final(self)) == state_ids_contents(*old(self)).insert(s, id),
    {
        self.inner.insert(s, id);
    }
}

/// A set of u32 ids.
#[verifier::external_body]
pub struct IdSet {
    inner: FxHashSet<u32>,
}

/// The ids that an [`IdSet`] holds.
pub uninterp spec fn id_set_contents(s: IdSet) -> Set<u32>;

impl IdSet {
    /// The ids held, as a mathematical set.
    pub open spec fn view_set(&self) -> Set<u32> {
        id_set_contents(*self)
    }

    /// An empty set (`FxHashSet::default`).
    #[verifier::external_body]
    pub fn new() -> (s: IdSet)
        ensures
            id_set_contents(s) == Set::<u32>::empty(),
    {
        IdSet { inner: FxHashSet::default() }
    }

    /// Number of ids held (`HashSet::len`); the set is finite.
    #[verifier::external_body]
    pub fn len(&self) -> (n: usize)
        ensures
            finite_with_len(id_set_contents(*self), n as nat),
    {
        self.inner.len()
    }

    /// Membership (`HashSet::contains`).
    #[verifier::external_body]
    pub fn contains(&self, id: u32) -> (b: bool)
        ensures
            b == id_set_contents(*self).contains(id),
    {
        self.inner.contains(&id)
    }

    /// Adds `id` (`HashSet::insert`).
    #[verifier::external_body]
    pub fn insert(&mut self, id: u32)
        ensures
            id_set_contents(*final(self)) == id_set_contents(*old(self)).insert(id),
    {
        self.inner.insert(id);
    }
}

/// A map from u32 ids to u32 ids.
#[verifier::external_body]
pub struct IdMap {
    inner: FxHashMap<u32, u32>,
}

/// The entries of an [`IdMap`].
pub uninterp spec fn id_map_contents(m: IdMap) -> Map<u32, u32>;

impl IdMap {
    /// The entries, as a mathematical map.
    pub open spec fn view_map(&self) -> Map<u32, u32> {
        id_map_contents(*self)
    }

    /// An empty map (`FxHashMap::default`).
    #[verifier::external_body]
    pub fn new() -> (m: IdMap)
        ensures
            id_map_contents(m).dom() == Set::<u32>::empty(),
    {
        IdMap { inner: FxHashMap::default() }
    }

    /// Number of entries (`HashMap::len`); the map is finite.
    #[verifier::external_body]
    pub fn len(&self) -> (n: usize)
        ensures
            finite_with_len(id_map_contents(*self).dom(), n as nat),
    {
        self.inner.len()
    }

    /// The id mapped from `k`, if any (`HashMap::get`).
    #[verifier::external_body]
    pub fn get(&self, k: u32) -> (r: Option<u32>)
        ensures
            r == (if id_map_contents(*self).contains_key(k) { Some(id_map_contents(*self)[k]) } else { None::<u32> }),
    {
        self.inner.get(&k).copied()
    }

    /// Maps `k` to `v` (`HashMap::insert`).
    #[verifier::external_body]
    pub fn insert(&mut self, k: u32, v: u32)
        ensures
            id_map_contents(*final(self)) == id_map_contents(*old(self)).insert(k, v),
    {
        self.inner.insert(k, v);
    }
}

} // verus!
