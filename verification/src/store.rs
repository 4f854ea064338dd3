//! The entity store.

use vstd::prelude::*;
use crate::model::{
    Entity, EntityData, Marker, Records, after_cleanup, condemned, dead, in_subtree, is_alive,
    is_tagged, lemma_subtree_same_parents, live_count, well_formed, without_subtree,
};

verus! {

/// A store of entities with a parent-child hierarchy, for an application
/// that brings no engine of its own.
///
/// It is simpler than an engine's store: identifiers are never reused, and
/// an entity gets its parent when it is spawned and keeps it, so a parent is
/// always older than its children. `lemma_store_agrees_with_host` shows that
/// a cleanup here leaves what a cleanup on a host world leaves.
pub struct Store {
    alive: Vec<bool>,
    parents: Vec<Option<usize>>,
    markers: Vec<Vec<Marker>>,
}

impl View for Store {
    type V = Records;

    closed spec fn view(&self) -> Records {
        Seq::new(
            self.alive@.len(),
            |i: int|
                EntityData {
                    alive: self.alive@[i],
                    parent: self.parents@[i],
                    markers: self.markers@[i]@,
                },
        )
    }
}

impl Store {
    /// The three columns of the store have one row per entity.
    pub closed spec fn consistent(&self) -> bool {
        self.alive@.len() == self.parents@.len() && self.alive@.len() == self.markers@.len()
    }

    /// The store's invariant.
    pub open spec fn wf(&self) -> bool {
        self.consistent() && well_formed(self@)
    }

    /// An empty store.
    pub fn new() -> (s: Store)
        ensures
            s.wf(),
            s@ == Seq::<EntityData>::empty(),
    {
        let s = Store { alive: Vec::new(), parents: Vec::new(), markers: Vec::new() };
        assert(s@ =~= Seq::<EntityData>::empty());
        s
    }

    /// Spawns a live entity without a parent that carries `markers`. It gets
    /// an identifier that no entity had before, and no other entity changes.
    pub fn spawn(&mut self, markers: Vec<Marker>) -> (e: Entity)
        requires
            old(self).wf(),
        ensures
            final(self).wf(),
            e.index == old(self)@.len(),
            final(self)@ == old(self)@.push(
                EntityData { alive: true, parent: None, markers: markers@ },
            ),
    {
        let index: usize = self.alive.len();
        self.alive.push(true);
        self.parents.push(None);
        self.markers.push(markers);
        assert(self@ =~= old(self)@.push(
            EntityData { alive: true, parent: None, markers: markers@ },
        ));
        Entity { index }
    }

    /// Spawns a live child of `parent` that carries `markers`, if `parent` is
    /// alive; otherwise nothing changes and the result is `None`.
    pub fn spawn_child(&mut self, parent: Entity, markers: Vec<Marker>) -> (r: Option<Entity>)
        requires
            old(self).wf(),
        ensures
            final(self).wf(),
            match r {
                Some(e) => is_alive(old(self)@, parent.index as int)
                    && e.index == old(self)@.len()
                    && final(self)@ == old(self)@.push(
                    EntityData { alive: true, parent: Some(parent.index), markers: markers@ },
                ),
                None => !is_alive(old(self)@, parent.index as int) && final(self)@ == old(self)@,
            },
    {
        if !self.contains(parent) {
            return None;
        }
        let index: usize = self.alive.len();
        self.alive.push(true);
        self.parents.push(Some(parent.index));
        self.markers.push(markers);
        assert(self@ =~= old(self)@.push(
            EntityData { alive: true, parent: Some(parent.index), markers: markers@ },
        ));
        Some(Entity { index })
    }

    /// Whether `e` is alive in this store.
    pub fn contains(&self, e: Entity) -> (b: bool)
        requires
            self.wf(),
        ensures
            b == is_alive(self@, e.index as int),
    {
        e.index < self.alive.len() && self.alive[e.index]
    }

    /// Whether `e` is alive and carries `m`.
    pub fn has_marker(&self, e: Entity, m: Marker) -> (b: bool)
        requires
            self.wf(),
        ensures
            b == is_tagged(self@, m, e.index as int),
    {
        if !self.contains(e) {
            return false;
        }
        let carried = &self.markers[e.index];
        let mut k: usize = 0;
        while k < carried.len()
            invariant
                k <= carried@.len(),
                is_alive(self@, e.index as int),
                carried@ == self@[e.index as int].markers,
                forall|j: int| 0 <= j < k ==> carried@[j] != m,
            decreases carried@.len() - k,
        {
            if carried[k] == m {
                assert(carried@[k as int] == m);
                return true;
            }
            k += 1;
        }
        false
    }

    /// The parent of `e`, if `e` is alive and has one.
    pub fn parent(&self, e: Entity) -> (r: Option<Entity>)
        requires
            self.wf(),
        ensures
            r == if is_alive(self@, e.index as int) {
                match self@[e.index as int].parent {
                    Some(p) => Some(Entity { index: p }),
                    None => None,
                }
            } else {
                None
            },
    {
        if !self.contains(e) {
            return None;
        }
        match self.parents[e.index] {
            Some(p) => Some(Entity { index: p }),
            None => None,
        }
    }

    /// The number of live entities.
    pub fn len(&self) -> (n: usize)
        requires
            self.wf(),
        ensures
            n == live_count(self@),
    {
        let mut n: usize = 0;
        let mut k: usize = 0;
        while k < self.alive.len()
            invariant
                k <= self.alive@.len(),
                n <= k,
                n == live_count(self@.take(k as int)),
            decreases self.alive@.len() - k,
        {
            assert(self@.take(k + 1).drop_last() =~= self@.take(k as int));
            if self.alive[k] {
                n += 1;
            }
            k += 1;
        }
        assert(self@.take(k as int) =~= self@);
        n
    }

    /// The live entities that carry `m`, each once, in the order in which
    /// they were spawned.
    pub fn query(&self, m: Marker) -> (found: Vec<Entity>)
        requires
            self.wf(),
        ensures
            forall|j: int| 0 <= j < found@.len() ==> is_tagged(self@, m, #[trigger] found@[j].index as int),
            forall|i: int|
                is_tagged(self@, m, i) ==> exists|j: int|
                    0 <= j < found@.len() && #[trigger] found@[j].index == i,
            forall|j: int, k: int|
                0 <= j < k < found@.len() ==> found@[j].index < found@[k].index,
    {
        let mut found: Vec<Entity> = Vec::new();
        let mut i: usize = 0;
        while i < self.alive.len()
            invariant
                self.wf(),
                i <= self.alive@.len(),
                forall|j: int|
                    0 <= j < found@.len() ==> is_tagged(self@, m, #[trigger] found@[j].index as int)
                        && found@[j].index < i,
                forall|h: int|
                    0 <= h < i && is_tagged(self@, m, h) ==> exists|j: int|
                        0 <= j < found@.len() && #[trigger] found@[j].index == h,
                forall|j: int, k: int|
                    0 <= j < k < found@.len() ==> found@[j].index < found@[k].index,
            decreases self.alive@.len() - i,
        {
            let e = Entity { index: i };
            if self.has_marker(e, m) {
                let ghost before = found@;
                found.push(e);
                assert forall|h: int| 0 <= h < i + 1 && is_tagged(self@, m, h) implies exists|j: int|
                    0 <= j < found@.len() && #[trigger] found@[j].index == h by {
                    if h < i {
                        let j = choose|j: int| 0 <= j < before.len() && #[trigger] before[j].index == h;
                        assert(found@[j].index == h);
                    } else {
                        assert(found@[before.len() as int].index == h);
                    }
                }
            }
            i += 1;
        }
        found
    }

    /// Despawns `e` and every descendant of `e`, whether or not they carry a
    /// marker. Nothing else changes; if `e` is not alive, nothing changes at
    /// all.
    pub fn despawn_recursive(&mut self, e: Entity)
        requires
            old(self).wf(),
        ensures
            final(self).wf(),
            final(self)@ == without_subtree(old(self)@, e.index as int),
    {
        let ghost w = self@;
        let root: usize = e.index;
        let n: usize = self.alive.len();
        let mut doomed: Vec<bool> = Vec::new();
        let mut i: usize = 0;
        while i < n
            invariant
                self.consistent(),
                well_formed(w),
                n == w.len(),
                self@.len() == n,
                i <= n,
                doomed@.len() == i,
                forall|j: int| 0 <= j < i ==> doomed@[j] == in_subtree(w, root as int, j),
                forall|j: int| 0 <= j < i ==> self@[j] == without_subtree(w, root as int)[j],
                forall|j: int| i <= j < n ==> self@[j] == w[j],
            decreases n - i,
        {
            let under: bool = match self.parents[i] {
                Some(p) => {
                    assert(w[i as int].parent == Some(p));
                    doomed[p]
                },
                None => false,
            };
            let d: bool = i == root || under;
            assert(d == in_subtree(w, root as int, i as int));
            if d {
                self.alive.set(i, false);
            }
            doomed.push(d);
            i += 1;
        }
        assert(self@ =~= without_subtree(w, root as int));
        assert forall|j: int| 0 <= j < self@.len() implies match (#[trigger] self@[j]).parent {
            Some(p) => p < j && (self@[j].alive ==> self@[p as int].alive),
            None => true,
        } by {
            assert(self@[j].parent == w[j].parent);
        }
    }

    /// Despawns every live entity that carries `m`, each with all its
    /// descendants. Entities outside those subtrees do not change.
    pub fn cleanup(&mut self, m: Marker)
        requires
            old(self).wf(),
        ensures
            final(self).wf(),
            final(self)@ == after_cleanup(old(self)@, m),
    {
        let ghost w = self@;
        let targets = self.query(m);
        let mut k: usize = 0;
        while k < targets.len()
            invariant
                self.wf(),
                k <= targets@.len(),
                self@.len() == w.len(),
                forall|i: int|
                    0 <= i < w.len() ==> #[trigger] self@[i] == if exists|j: int|
                        0 <= j < k && in_subtree(w, #[trigger] targets@[j].index as int, i) {
                        dead(w[i])
                    } else {
                        w[i]
                    },
            decreases targets@.len() - k,
        {
            let ghost before = self@;
            let t = targets[k];
            self.despawn_recursive(t);
            assert forall|i: int| 0 <= i < w.len() implies #[trigger] self@[i] == if exists|j: int|
                0 <= j < k + 1 && in_subtree(w, #[trigger] targets@[j].index as int, i) {
                dead(w[i])
            } else {
                w[i]
            } by {
                lemma_subtree_same_parents(before, w, t.index as int, i);
                if in_subtree(w, t.index as int, i) {
                    assert(in_subtree(w, targets@[k as int].index as int, i));
                }
            }
            k += 1;
        }
        assert forall|i: int| 0 <= i < w.len() implies self@[i] == after_cleanup(w, m)[i] by {
            if condemned(w, m, i) {
                let r = choose|r: int| is_tagged(w, m, r) && #[trigger] in_subtree(w, r, i);
                let j = choose|j: int| 0 <= j < targets@.len() && #[trigger] targets@[j].index == r;
                assert(in_subtree(w, targets@[j].index as int, i));
            }
        }
        assert(self@ =~= after_cleanup(w, m));
    }
}

} // verus!
