use vstd::prelude::*;
use crate::value::GradValue;

verus! {

/// The gradient store: at most one gradient per node identity.
///
/// Beside each gradient it keeps, as ghost state, how many contributions were
/// summed into it.
pub struct Grads<T> {
    entries: Vec<Option<T>>,
    counts: Ghost<Map<usize, nat>>,
}

impl<T> Grads<T> {
    /// The store as a map from node identity to gradient.
    pub closed spec fn view(&self) -> Map<usize, T> {
        Map::new(
            |id: usize| id < self.entries@.len() && self.entries@[id as int] is Some,
            |id: usize| self.entries@[id as int]->Some_0,
        )
    }

    /// How many contributions were summed into the entry for `id` (none
    /// where there is no entry).
    pub closed spec fn count(&self, id: usize) -> nat {
        if self.counts@.contains_key(id) {
            self.counts@[id]
        } else {
            0
        }
    }

    /// An empty store.
    pub fn new() -> (r: Self)
        ensures
            r@ == Map::<usize, T>::empty(),
            forall|id: usize| #[trigger] r.count(id) == 0,
    {
        let r = Grads { entries: Vec::new(), counts: Ghost(Map::empty()) };
        assert(r@ =~= Map::<usize, T>::empty());
        r
    }

    /// Makes room for identity `id`, leaving the map unchanged.
    fn reserve(&mut self, id: usize)
        ensures
            final(self)@ == old(self)@,
            final(self).counts == old(self).counts,
            id < final(self).entries@.len(),
    {
        while self.entries.len() <= id
            invariant
                self@ == old(self)@,
                self.counts == old(self).counts,
            decreases id + 1 - self.entries.len(),
        {
            self.entries.push(None);
            assert(self@ =~= old(self)@);
        }
    }

    /// The gradient stored for `id`, if any.
    pub fn get(&self, id: usize) -> (r: Option<&T>)
        ensures
            r is Some == self@.contains_key(id),
            r is Some ==> *r->Some_0 == self@[id],
    {
        if id < self.entries.len() {
            match &self.entries[id] {
                Some(g) => Some(g),
                None => None,
            }
        } else {
            None
        }
    }

    /// Stores `value` for `id`, replacing any entry there.
    pub fn register(&mut self, id: usize, value: T)
        ensures
            final(self)@ == old(self)@.insert(id, value),
            final(self).count(id) == 1,
            forall|other: usize| other != id ==> #[trigger] final(self).count(other) == old(self).count(other),
    {
        self.reserve(id);
        self.entries.set(id, Some(value));
        self.counts = Ghost(self.counts@.insert(id, 1));
        assert(self@ =~= old(self)@.insert(id, value));
    }
}

/// What accumulating `delta` into the entry for `id` leaves in the store.
pub open spec fn accumulated<T: GradValue>(m: Map<usize, T>, id: usize, delta: T) -> Map<usize, T> {
    if m.contains_key(id) {
        m.insert(id, m[id].spec_add(delta))
    } else {
        m.insert(id, delta)
    }
}

impl<T: GradValue> Grads<T> {
    /// Sums `delta` into the entry for `id`, or inserts it where there is none.
    /// No other entry changes.
    pub fn accumulate(&mut self, id: usize, delta: T)
        ensures
            final(self)@.dom() == old(self)@.dom().insert(id),
            !old(self)@.contains_key(id) ==> final(self)@[id] == delta,
            old(self)@.contains_key(id) ==> final(self)@[id] == old(self)@[id].spec_add(delta),
            forall|other: usize| other != id && #[trigger] old(self)@.contains_key(other) ==> final(self)@[other]
                == old(self)@[other],
            final(self)@ == accumulated(old(self)@, id, delta),
            final(self).count(id) == old(self).count(id) + 1,
            forall|other: usize| other != id ==> #[trigger] final(self).count(other) == old(self).count(other),
    {
        self.reserve(id);
        let sum = match &self.entries[id] {
            Some(g) => Some(g.add(&delta)),
            None => None,
        };
        match sum {
            Some(s) => {
                self.entries.set(id, Some(s));
            },
            None => {
                self.entries.set(id, Some(delta));
            },
        }
        self.counts = Ghost(self.counts@.insert(id, old(self).count(id) + 1));
        assert(self@.dom() =~= old(self)@.dom().insert(id));
        assert(self@ =~= accumulated(old(self)@, id, delta));
    }
}

} // verus!
