//! Per-entity registries: a small association map from entity to an owned
//! value, used for the handler and state registries.

use vstd::prelude::*;

use crate::tree::Entity;

verus! {

/// The map described by an association list, later entries winning.
pub open spec fn assoc_view<V>(s: Seq<(Entity, V)>) -> Map<Entity, V>
    decreases s.len(),
{
    if s.len() == 0 {
        Map::empty()
    } else {
        assoc_view(s.drop_last()).insert(s.last().0, s.last().1)
    }
}

/// A mapping from entity to a value of the registry, backed by an
/// association list with unique keys.
pub struct EntityMap<V> {
    pub entries: Vec<(Entity, V)>,
}

impl<V> EntityMap<V> {
    /// No entity is listed twice.
    pub open spec fn wf(self) -> bool {
        forall|i: int, j: int|
            0 <= i < j < self.entries@.len()
                ==> (#[trigger] self.entries@[i]).0 != (#[trigger] self.entries@[j]).0
    }

    pub open spec fn view(self) -> Map<Entity, V> {
        assoc_view(self.entries@)
    }

    pub fn new() -> (m: EntityMap<V>)
        ensures
            m.wf(),
            m@ == Map::<Entity, V>::empty(),
    {
        EntityMap { entries: Vec::new() }
    }

    fn position_of(&self, key: Entity) -> (r: Option<usize>)
        ensures
            match r {
                Some(i) => i < self.entries@.len() && self.entries@[i as int].0 == key,
                None => forall|i: int|
                    0 <= i < self.entries@.len() ==> (#[trigger] self.entries@[i]).0 != key,
            },
    {
        let mut i: usize = 0;
        while i < self.entries.len()
            invariant
                i <= self.entries@.len(),
                forall|j: int| 0 <= j < i ==> (#[trigger] self.entries@[j]).0 != key,
            decreases self.entries@.len() - i,
        {
            if self.entries[i].0 == key {
                return Some(i);
            }
            i = i + 1;
        }
        None
    }

    pub fn contains_key(&self, key: Entity) -> (r: bool)
        requires
            self.wf(),
        ensures
            r == self@.contains_key(key),
    {
        let r = self.position_of(key);
        proof {
            match r {
                Some(i) => lemma_assoc_view_index(self.entries@, i as int),
                None => lemma_assoc_view_absent(self.entries@, key),
            }
        }
        r.is_some()
    }

    pub fn get(&self, key: Entity) -> (r: Option<&V>)
        requires
            self.wf(),
        ensures
            match r {
                Some(v) => self@.contains_key(key) && *v == self@[key],
                None => !self@.contains_key(key),
            },
    {
        let pos = self.position_of(key);
        proof {
            match pos {
                Some(i) => lemma_assoc_view_index(self.entries@, i as int),
                None => lemma_assoc_view_absent(self.entries@, key),
            }
        }
        match pos {
            Some(i) => Some(&self.entries[i].1),
            None => None,
        }
    }

    /// Decides key uniqueness, for validating a registry that was not
    /// populated through [`EntityMap::insert`] alone.
    pub fn check_wf(&self) -> (r: bool)
        ensures
            r == self.wf(),
    {
        let n = self.entries.len();
        let mut i: usize = 0;
        while i < n
            invariant
                i <= n,
                n == self.entries@.len(),
                forall|a: int, b: int|
                    0 <= a < b < n && a < i
                        ==> (#[trigger] self.entries@[a]).0 != (#[trigger] self.entries@[b]).0,
            decreases n - i,
        {
            let mut j: usize = i + 1;
            while j < n
                invariant
                    i < j <= n,
                    n == self.entries@.len(),
                    forall|b: int|
                        i < b < j ==> self.entries@[i as int].0
                            != (#[trigger] self.entries@[b]).0,
                decreases n - j,
            {
                if self.entries[i].0 == self.entries[j].0 {
                    return false;
                }
                j = j + 1;
            }
            i = i + 1;
        }
        true
    }

    /// Registers the value of a fresh entity. Registries are populated at
    /// widget-tree build time; an entity is registered once.
    pub fn insert(&mut self, key: Entity, value: V)
        requires
            old(self).wf(),
            !old(self)@.contains_key(key),
        ensures
            final(self).wf(),
            final(self)@ == old(self)@.insert(key, value),
    {
        proof {
            lemma_assoc_view_absent_converse(self.entries@, key);
        }
        self.entries.push((key, value));
        proof {
            assert(self.entries@.drop_last() =~= old(self).entries@);
        }
    }
}

/// A key that stands at an index of an association list with unique keys is
/// in its map, bound to the value beside it.
pub proof fn lemma_assoc_view_index<V>(s: Seq<(Entity, V)>, i: int)
    requires
        0 <= i < s.len(),
        forall|a: int, b: int|
            0 <= a < b < s.len() ==> (#[trigger] s[a]).0 != (#[trigger] s[b]).0,
    ensures
        assoc_view(s).contains_key(s[i].0),
        assoc_view(s)[s[i].0] == s[i].1,
    decreases s.len(),
{
    if i < s.len() - 1 {
        assert(s.drop_last()[i] == s[i]);
        lemma_assoc_view_index(s.drop_last(), i);
        assert(s[i].0 != s.last().0);
    }
}

/// A key that stands at no index of an association list is not in its map.
pub proof fn lemma_assoc_view_absent<V>(s: Seq<(Entity, V)>, key: Entity)
    requires
        forall|i: int| 0 <= i < s.len() ==> (#[trigger] s[i]).0 != key,
    ensures
        !assoc_view(s).contains_key(key),
    decreases s.len(),
{
    if s.len() > 0 {
        assert forall|i: int| 0 <= i < s.len() - 1
            implies (#[trigger] s.drop_last()[i]).0 != key by {
            assert(s.drop_last()[i] == s[i]);
        }
        lemma_assoc_view_absent(s.drop_last(), key);
    }
}

/// A key that is not in the map of an association list stands at no index.
pub proof fn lemma_assoc_view_absent_converse<V>(s: Seq<(Entity, V)>, key: Entity)
    requires
        !assoc_view(s).contains_key(key),
    ensures
        forall|i: int| 0 <= i < s.len() ==> (#[trigger] s[i]).0 != key,
    decreases s.len(),
{
    if s.len() > 0 {
        lemma_assoc_view_absent_converse(s.drop_last(), key);
        assert forall|i: int| 0 <= i < s.len() implies (#[trigger] s[i]).0 != key by {
            if i < s.len() - 1 {
                assert(s.drop_last()[i] == s[i]);
            }
        }
    }
}

} // verus!
