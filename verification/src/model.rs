//! The mathematical model of an entity store: a sequence of entity records,
//! indexed by entity, and the relations the cleanup contracts are stated over.

use vstd::prelude::*;

verus! {

/// Identifies one entity of a store. Identifiers are never reused.
#[derive(Clone, Copy, Debug, PartialEq, Eq, Structural)]
pub struct Entity {
    pub index: usize,
}

/// A cleanup marker: a tag without data that an entity may carry.
#[derive(Clone, Copy, Debug, PartialEq, Eq, Structural)]
pub struct Marker {
    pub id: u32,
}

/// One value of the application's state enumeration.
#[derive(Clone, Copy, Debug, PartialEq, Eq, Structural)]
pub struct State {
    pub id: u32,
}

/// Binds a marker to the state whose exit despawns the entities that carry it.
#[derive(Clone, Copy, Debug, PartialEq, Eq, Structural)]
pub struct Registration {
    pub state: State,
    pub marker: Marker,
}

/// What the model records of one entity.
pub struct EntityData {
    pub alive: bool,
    pub parent: Option<usize>,
    pub markers: Seq<Marker>,
}

/// The model of a store: the record of every entity ever spawned.
pub type Records = Seq<EntityData>;

/// Every parent was spawned before its child, and a live entity's parent is live.
pub open spec fn well_formed(w: Records) -> bool {
    forall|i: int|
        0 <= i < w.len() ==> match (#[trigger] w[i]).parent {
            Some(p) => p < i && (w[i].alive ==> w[p as int].alive),
            None => true,
        }
}

/// `i` is a live entity of `w`.
pub open spec fn is_alive(w: Records, i: int) -> bool {
    0 <= i < w.len() && w[i].alive
}

/// `i` is a live entity of `w` that carries `m`.
pub open spec fn is_tagged(w: Records, m: Marker, i: int) -> bool {
    is_alive(w, i) && w[i].markers.contains(m)
}

/// `i` is `root` or one of its descendants, at any depth.
pub open spec fn in_subtree(w: Records, root: int, i: int) -> bool
    decreases i,
{
    if i < 0 || i >= w.len() {
        false
    } else if i == root {
        true
    } else {
        match w[i].parent {
            Some(p) => p < i && in_subtree(w, root, p as int),
            None => false,
        }
    }
}

/// `i` lies in the subtree of some live entity that carries `m`.
pub open spec fn condemned(w: Records, m: Marker, i: int) -> bool {
    exists|root: int| is_tagged(w, m, root) && #[trigger] in_subtree(w, root, i)
}

/// The record of `d` once it has left the store.
pub open spec fn dead(d: EntityData) -> EntityData {
    EntityData { alive: false, parent: d.parent, markers: d.markers }
}

/// `w` after the subtree of `root` has been despawned.
pub open spec fn without_subtree(w: Records, root: int) -> Records {
    Seq::new(w.len(), |i: int| if in_subtree(w, root, i) { dead(w[i]) } else { w[i] })
}

/// `w` after every live entity that carries `m` has been despawned with its
/// subtree.
pub open spec fn after_cleanup(w: Records, m: Marker) -> Records {
    Seq::new(w.len(), |i: int| if condemned(w, m, i) { dead(w[i]) } else { w[i] })
}

/// `w` after the exit handlers that `regs` binds to `state` have run, in the
/// order in which they were registered.
pub open spec fn after_exit(w: Records, regs: Seq<Registration>, state: State) -> Records
    decreases regs.len(),
{
    if regs.len() == 0 {
        w
    } else {
        let before = after_exit(w, regs.drop_last(), state);
        if regs.last().state == state {
            after_cleanup(before, regs.last().marker)
        } else {
            before
        }
    }
}

/// The number of live entities.
pub open spec fn live_count(w: Records) -> nat
    decreases w.len(),
{
    if w.len() == 0 {
        0
    } else {
        live_count(w.drop_last()) + if w.last().alive { 1nat } else { 0nat }
    }
}

/// Which entities a subtree holds depends on the parent relation alone.
pub proof fn lemma_subtree_same_parents(w1: Records, w2: Records, root: int, i: int)
    requires
        w1.len() == w2.len(),
        forall|j: int| 0 <= j < w1.len() ==> w1[j].parent == w2[j].parent,
    ensures
        in_subtree(w1, root, i) == in_subtree(w2, root, i),
    decreases i,
{
    if 0 <= i < w1.len() && i != root {
        match w1[i].parent {
            Some(p) => {
                if p < i {
                    lemma_subtree_same_parents(w1, w2, root, p as int);
                }
            },
            None => {},
        }
    }
}

} // verus!
