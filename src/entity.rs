//! Entities: numbered things with a label, handed out from a counter.
use vstd::prelude::*;

verus! {

pub type Entity = usize;

/// Hands out `*counter` as a new entity and moves the counter on.
pub fn new_entity(counter: &mut Entity) -> (r: Entity)
    requires
        *old(counter) < usize::MAX,
    ensures
        r == *old(counter),
        *final(counter) == *old(counter) + 1,
{
    let r = *counter;
    *counter = *counter + 1;
    r
}

/// The label of each entity, in order of creation, and the next entity.
#[derive(Debug, Default)]
pub struct EntityMap {
    entries: Vec<(Entity, String)>,
    next: Entity,
}

/// The label of `entity` in `entries`, if it has one.
pub open spec fn label_of(entries: Seq<(Entity, String)>, entity: Entity) -> Option<Seq<char>> {
    if exists|i: int| 0 <= i < entries.len() && (#[trigger] entries[i]).0 == entity {
        Some(entries[choose|i: int| 0 <= i < entries.len() && (#[trigger] entries[i]).0 == entity].1@)
    } else {
        None
    }
}

impl EntityMap {
    /// The entities and their labels, in order of creation.
    pub closed spec fn entries(&self) -> Seq<(Entity, String)> {
        self.entries@
    }

    /// The entity that `insert` hands out next.
    pub closed spec fn next_entity(&self) -> Entity {
        self.next
    }

    /// Entities were handed out in increasing order, all below the next one.
    pub closed spec fn wf(&self) -> bool {
        &&& forall|i: int| 0 <= i < self.entries@.len() ==> #[trigger] self.entries@[i].0 < self.next
        &&& forall|i: int, j: int|
            0 <= i < j < self.entries@.len() ==> #[trigger] self.entries@[i].0 < #[trigger] self.entries@[j].0
    }

    /// A map without entities.
    pub fn new() -> (r: EntityMap)
        ensures
            r.wf(),
            r.entries().len() == 0,
            r.next_entity() == 0,
    {
        EntityMap { entries: Vec::new(), next: 0 }
    }

    /// Creates an entity labelled `label`; `None` once every entity has been handed out.
    pub fn insert(&mut self, label: String) -> (r: Option<Entity>)
        requires
            old(self).wf(),
        ensures
            final(self).wf(),
            old(self).next_entity() < usize::MAX ==> r == Some(old(self).next_entity())
                && final(self).entries() == old(self).entries().push((old(self).next_entity(), label))
                && final(self).next_entity() == old(self).next_entity() + 1,
            old(self).next_entity() == usize::MAX ==> r.is_none() && *final(self) == *old(self),
    {
        if self.next == usize::MAX {
            return None;
        }
        let id = new_entity(&mut self.next);
        self.entries.push((id, label));
        Some(id)
    }

    /// The label of `entity`.
    pub fn resolve(&self, entity: Entity) -> (r: Option<String>)
        requires
            self.wf(),
        ensures
            r.is_some() == label_of(self.entries(), entity).is_some(),
            r.is_some() ==> r.unwrap()@ == label_of(self.entries(), entity).unwrap(),
    {
        let mut i: usize = 0;
        while i < self.entries.len()
            invariant
                self.wf(),
                0 <= i <= self.entries@.len(),
                forall|j: int| 0 <= j < i ==> (#[trigger] self.entries@[j]).0 != entity,
            decreases self.entries@.len() - i,
        {
            if self.entries[i].0 == entity {
                let label = self.entries[i].1.clone();
                proof {
                    let es = self.entries();
                    assert(es[i as int].0 == entity);
                    let k = choose|k: int| 0 <= k < es.len() && (#[trigger] es[k]).0 == entity;
                    if k < i {
                        assert(es[k].0 < es[i as int].0);
                    } else if k > i {
                        assert(es[i as int].0 < es[k].0);
                    }
                    assert(k == i);
                    assert(label@ == es[i as int].1@);
                }
                return Some(label);
            }
            i = i + 1;
        }
        None
    }

    /// The label of each of `entities`.
    pub fn resolve_all(&self, entities: &Vec<Entity>) -> (r: Vec<Option<String>>)
        requires
            self.wf(),
        ensures
            r@.len() == entities@.len(),
            forall|i: int| 0 <= i < entities@.len() ==> (#[trigger] r@[i]).is_some() == label_of(self.entries(), entities@[i]).is_some()
                && (r@[i].is_some() ==> r@[i].unwrap()@ == label_of(self.entries(), entities@[i]).unwrap()),
    {
        let mut r: Vec<Option<String>> = Vec::new();
        let mut i: usize = 0;
        while i < entities.len()
            invariant
                self.wf(),
                0 <= i <= entities@.len(),
                r@.len() == i,
                forall|j: int| 0 <= j < i ==> (#[trigger] r@[j]).is_some() == label_of(self.entries(), entities@[j]).is_some()
                    && (r@[j].is_some() ==> r@[j].unwrap()@ == label_of(self.entries(), entities@[j]).unwrap()),
            decreases entities@.len() - i,
        {
            r.push(self.resolve(entities[i]));
            i = i + 1;
        }
        r
    }

    /// The first entity labelled `label`.
    pub fn entity(&self, label: &String) -> (r: Option<Entity>)
        ensures
            match r {
                Some(e) => exists|i: int| 0 <= i < self.entries().len() && (#[trigger] self.entries()[i]).0 == e
                    && self.entries()[i].1@ == label@ && forall|j: int| 0 <= j < i ==> (#[trigger] self.entries()[j]).1@ != label@,
                None => forall|i: int| 0 <= i < self.entries().len() ==> (#[trigger] self.entries()[i]).1@ != label@,
            },
    {
        let mut i: usize = 0;
        while i < self.entries.len()
            invariant
                0 <= i <= self.entries@.len(),
                forall|j: int| 0 <= j < i ==> (#[trigger] self.entries@[j]).1@ != label@,
            decreases self.entries@.len() - i,
        {
            if self.entries[i].1 == *label {
                proof {
                    let es = self.entries();
                    assert(es[i as int].1@ == label@);
                    assert(forall|j: int| 0 <= j < i ==> (#[trigger] es[j]).1@ != label@);
                }
                return Some(self.entries[i].0);
            }
            i = i + 1;
        }
        None
    }

    /// The first entity labelled with each of `labels`.
    pub fn entities(&self, labels: &Vec<String>) -> (r: Vec<Option<Entity>>)
        ensures
            r@.len() == labels@.len(),
            forall|k: int| 0 <= k < labels@.len() ==> match #[trigger] r@[k] {
                Some(e) => exists|i: int| 0 <= i < self.entries().len() && (#[trigger] self.entries()[i]).0 == e
                    && self.entries()[i].1@ == labels@[k]@ && forall|j: int| 0 <= j < i ==> (#[trigger] self.entries()[j]).1@ != labels@[k]@,
                None => forall|i: int| 0 <= i < self.entries().len() ==> (#[trigger] self.entries()[i]).1@ != labels@[k]@,
            },
    {
        let mut r: Vec<Option<Entity>> = Vec::new();
        let mut k: usize = 0;
        while k < labels.len()
            invariant
                0 <= k <= labels@.len(),
                r@.len() == k,
                forall|m: int| 0 <= m < k ==> match #[trigger] r@[m] {
                    Some(e) => exists|i: int| 0 <= i < self.entries().len() && (#[trigger] self.entries()[i]).0 == e
                        && self.entries()[i].1@ == labels@[m]@ && forall|j: int| 0 <= j < i ==> (#[trigger] self.entries()[j]).1@ != labels@[m]@,
                    None => forall|i: int| 0 <= i < self.entries().len() ==> (#[trigger] self.entries()[i]).1@ != labels@[m]@,
                },
            decreases labels@.len() - k,
        {
            r.push(self.entity(&labels[k]));
            k = k + 1;
        }
        r
    }
}

} // verus!
