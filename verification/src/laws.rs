//! What holds of every store and every application, proved over the model.

use vstd::prelude::*;
use crate::app::{AppView, after_update};
use crate::host::{
    below_target, is_path, lemma_reachable_transitive, reachable, step_at, survivors,
};
use crate::model::{
    EntityData, Marker, Registration, State, Records, after_cleanup, after_exit, condemned,
    in_subtree, is_alive, is_tagged, lemma_subtree_same_parents, well_formed,
};

verus! {

/// A cleanup keeps the number of records, every parent and every marker, and
/// brings no entity back to life.
pub proof fn lemma_cleanup_frame(w: Records, m: Marker)
    ensures
        after_cleanup(w, m).len() == w.len(),
        forall|i: int|
            0 <= i < w.len() ==> {
                &&& (#[trigger] after_cleanup(w, m)[i]).parent == w[i].parent
                &&& after_cleanup(w, m)[i].markers == w[i].markers
                &&& after_cleanup(w, m)[i].alive ==> w[i].alive
            },
{
}

/// A cleanup keeps a store well formed.
pub proof fn lemma_cleanup_well_formed(w: Records, m: Marker)
    requires
        well_formed(w),
    ensures
        well_formed(after_cleanup(w, m)),
{
    let v = after_cleanup(w, m);
    assert forall|i: int| 0 <= i < v.len() implies match (#[trigger] v[i]).parent {
        Some(p) => p < i && (v[i].alive ==> v[p as int].alive),
        None => true,
    } by {
        assert(v[i].parent == w[i].parent);
        match w[i].parent {
            Some(p) => {
                if v[i].alive && condemned(w, m, p as int) {
                    let r = choose|r: int| is_tagged(w, m, r) && #[trigger] in_subtree(w, r, p as int);
                    assert(in_subtree(w, r, i));
                }
            },
            None => {},
        }
    }
}

/// The exit handlers of a state keep the number of records, every parent and
/// every marker, bring no entity back to life, and keep a store well formed.
pub proof fn lemma_exit_frame(w: Records, regs: Seq<Registration>, state: State)
    ensures
        after_exit(w, regs, state).len() == w.len(),
        forall|i: int|
            0 <= i < w.len() ==> {
                &&& (#[trigger] after_exit(w, regs, state)[i]).parent == w[i].parent
                &&& after_exit(w, regs, state)[i].markers == w[i].markers
                &&& after_exit(w, regs, state)[i].alive ==> w[i].alive
            },
        well_formed(w) ==> well_formed(after_exit(w, regs, state)),
    decreases regs.len(),
{
    if regs.len() > 0 {
        let before = after_exit(w, regs.drop_last(), state);
        lemma_exit_frame(w, regs.drop_last(), state);
        if regs.last().state == state {
            lemma_cleanup_frame(before, regs.last().marker);
            if well_formed(w) {
                lemma_cleanup_well_formed(before, regs.last().marker);
            }
        }
    }
}

/// In a well-formed store, no entity below a dead one is alive.
pub proof fn lemma_dead_root_dead_subtree(w: Records, root: int, i: int)
    requires
        well_formed(w),
        in_subtree(w, root, i),
        !is_alive(w, root),
    ensures
        !is_alive(w, i),
    decreases i,
{
    if i != root {
        lemma_dead_root_dead_subtree(w, root, w[i].parent.unwrap() as int);
    }
}

/// Leaving a state despawns every tagged subtree: if `marker` is registered
/// for `state`, then after the exit handlers of `state` have run no entity
/// that carried `marker` is alive, nor any of its descendants, at any depth
/// and whether or not they carry a marker themselves.
pub proof fn lemma_exit_despawns_tagged_subtrees(
    w: Records,
    regs: Seq<Registration>,
    state: State,
    marker: Marker,
    root: int,
    i: int,
)
    requires
        well_formed(w),
        regs.contains(Registration { state, marker }),
        is_tagged(w, marker, root),
        in_subtree(w, root, i),
    ensures
        !is_alive(after_exit(w, regs, state), i),
    decreases regs.len(),
{
    let before = after_exit(w, regs.drop_last(), state);
    let k = choose|k: int| 0 <= k < regs.len() && regs[k] == (Registration { state, marker });
    lemma_exit_frame(w, regs.drop_last(), state);
    if k < regs.len() - 1 {
        assert(regs.drop_last()[k] == regs[k]);
        lemma_exit_despawns_tagged_subtrees(w, regs.drop_last(), state, marker, root, i);
        if regs.last().state == state {
            lemma_cleanup_frame(before, regs.last().marker);
        }
    } else {
        lemma_subtree_same_parents(before, w, root, i);
        if is_alive(before, root) {
            assert(is_tagged(before, marker, root));
            assert(condemned(before, marker, i));
        } else {
            lemma_dead_root_dead_subtree(before, root, i);
        }
    }
}

/// Leaving a state touches nothing else: an entity that lies in no subtree
/// of a live entity carrying a marker registered for `state` has the same
/// record after the exit handlers of `state` as before.
pub proof fn lemma_exit_spares_the_rest(w: Records, regs: Seq<Registration>, state: State, i: int)
    requires
        0 <= i < w.len(),
        forall|k: int|
            0 <= k < regs.len() && (#[trigger] regs[k]).state == state ==> !condemned(
                w,
                regs[k].marker,
                i,
            ),
    ensures
        after_exit(w, regs, state)[i] == w[i],
    decreases regs.len(),
{
    if regs.len() > 0 {
        let before = after_exit(w, regs.drop_last(), state);
        assert forall|k: int|
            0 <= k < regs.drop_last().len() && (#[trigger] regs.drop_last()[k]).state
                == state implies !condemned(w, regs.drop_last()[k].marker, i) by {
            assert(regs.drop_last()[k] == regs[k]);
        }
        lemma_exit_spares_the_rest(w, regs.drop_last(), state, i);
        lemma_exit_frame(w, regs.drop_last(), state);
        let m = regs.last().marker;
        if regs.last().state == state && condemned(before, m, i) {
            let r = choose|r: int| is_tagged(before, m, r) && #[trigger] in_subtree(before, r, i);
            lemma_subtree_same_parents(before, w, r, i);
            assert(is_tagged(w, m, r));
            assert(condemned(w, m, i));
        }
    }
}

/// A cleanup for a marker that no live entity carries changes nothing.
pub proof fn lemma_cleanup_without_tagged(w: Records, m: Marker)
    requires
        forall|i: int| !is_tagged(w, m, i),
    ensures
        after_cleanup(w, m) == w,
{
    assert(after_cleanup(w, m) =~= w);
}

/// Running a cleanup a second time changes nothing.
pub proof fn lemma_cleanup_idempotent(w: Records, m: Marker)
    ensures
        after_cleanup(after_cleanup(w, m), m) == after_cleanup(w, m),
{
    let v = after_cleanup(w, m);
    assert forall|i: int| !is_tagged(v, m, i) by {
        if is_tagged(v, m, i) {
            assert(in_subtree(w, i, i));
            assert(is_tagged(w, m, i));
        }
    }
    lemma_cleanup_without_tagged(v, m);
}

/// The exit handlers of a state change nothing where no live entity carries
/// a marker registered for it.
pub proof fn lemma_exit_without_tagged(w: Records, regs: Seq<Registration>, state: State)
    requires
        forall|k: int, i: int|
            0 <= k < regs.len() && (#[trigger] regs[k]).state == state ==> !#[trigger] is_tagged(
                w,
                regs[k].marker,
                i,
            ),
    ensures
        after_exit(w, regs, state) == w,
    decreases regs.len(),
{
    if regs.len() > 0 {
        assert forall|k: int, i: int|
            0 <= k < regs.drop_last().len() && (#[trigger] regs.drop_last()[k]).state
                == state implies !#[trigger] is_tagged(w, regs.drop_last()[k].marker, i) by {
            assert(regs.drop_last()[k] == regs[k]);
        }
        lemma_exit_without_tagged(w, regs.drop_last(), state);
        if regs.last().state == state {
            assert forall|i: int| !is_tagged(w, regs.last().marker, i) by {
                assert(regs[regs.len() - 1] == regs.last());
            }
            lemma_cleanup_without_tagged(w, regs.last().marker);
        }
    }
}

/// When the state machine moves away from a state, every entity tagged with
/// a marker registered for that state is despawned with all its descendants.
pub proof fn lemma_transition_despawns_tagged_subtrees(
    a: AppView,
    entered: State,
    marker: Marker,
    root: int,
    i: int,
)
    requires
        well_formed(a.world),
        a.started,
        a.next == Some(entered),
        entered != a.state,
        a.cleanups.contains(Registration { state: a.state, marker }),
        is_tagged(a.world, marker, root),
        in_subtree(a.world, root, i),
    ensures
        after_update(a).state == entered,
        !is_alive(after_update(a).world, i),
{
    lemma_exit_despawns_tagged_subtrees(a.world, a.cleanups, a.state, marker, root, i);
}

/// An update leaves alone every entity that lies in no subtree of a live
/// entity carrying a marker registered for the current state.
pub proof fn lemma_update_spares_the_rest(a: AppView, i: int)
    requires
        0 <= i < a.world.len(),
        forall|k: int|
            0 <= k < a.cleanups.len() && (#[trigger] a.cleanups[k]).state == a.state
                ==> !condemned(a.world, a.cleanups[k].marker, i),
    ensures
        after_update(a).world[i] == a.world[i],
{
    lemma_exit_spares_the_rest(a.world, a.cleanups, a.state, i);
}

/// An update spawns nothing and brings no entity back to life, and it keeps
/// the store well formed and the registrations as they are.
pub proof fn lemma_update_never_revives(a: AppView, i: int)
    ensures
        after_update(a).world.len() == a.world.len(),
        after_update(a).cleanups == a.cleanups,
        !is_alive(a.world, i) ==> !is_alive(after_update(a).world, i),
        well_formed(a.world) ==> well_formed(after_update(a).world),
{
    lemma_exit_frame(a.world, a.cleanups, a.state);
}

/// `a` with `next` queued.
pub open spec fn queued(a: AppView, next: State) -> AppView {
    AppView { next: Some(next), ..a }
}

/// `a` with one more entity in its store.
pub open spec fn spawned(a: AppView, d: EntityData) -> AppView {
    AppView { world: a.world.push(d), ..a }
}

/// Leaving a state, coming back to it and leaving it again: an entity that
/// the first exit despawned stays despawned, and an entity tagged with the
/// registered marker that was spawned after the return is despawned by the
/// second exit.
pub proof fn lemma_reentry(
    a: AppView,
    away: State,
    onward: State,
    marker: Marker,
    d: EntityData,
    i: int,
)
    requires
        well_formed(a.world),
        a.started,
        away != a.state,
        onward != a.state,
        a.cleanups.contains(Registration { state: a.state, marker }),
        d.alive,
        d.markers.contains(marker),
        match d.parent {
            Some(p) => is_alive(
                after_update(queued(after_update(queued(a, away)), a.state)).world,
                p as int,
            ),
            None => true,
        },
    ensures
        ({
            let left = after_update(queued(a, away));
            let back = after_update(queued(left, a.state));
            let grown = spawned(back, d);
            let end = after_update(queued(grown, onward));
            &&& left.state == away
            &&& back.state == a.state
            &&& end.state == onward
            &&& !is_alive(left.world, i) ==> !is_alive(end.world, i)
            &&& !is_alive(end.world, back.world.len() as int)
        }),
{
    let left = after_update(queued(a, away));
    let back = after_update(queued(left, a.state));
    let grown = spawned(back, d);
    let end = after_update(queued(grown, onward));
    lemma_update_never_revives(queued(a, away), i);
    lemma_update_never_revives(queued(left, a.state), i);
    lemma_update_never_revives(queued(grown, onward), i);
    let n = back.world.len() as int;
    assert(well_formed(grown.world));
    assert(grown.world[n] == d);
    assert(is_tagged(grown.world, marker, n));
    assert(in_subtree(grown.world, n, n));
    lemma_transition_despawns_tagged_subtrees(queued(grown, onward), onward, marker, n, n);
}

/// The entities of `w` as a host world holds them: the live ones, by number.
pub open spec fn live_set(w: Records) -> Set<u64> {
    Set::new(|x: u64| is_alive(w, x as int))
}

/// The child relation of `w` as a host world holds it: the pairs of a parent
/// and a live child of it.
pub open spec fn child_pairs(w: Records) -> Set<(u64, u64)> {
    Set::new(
        |e: (u64, u64)|
            is_alive(w, e.1 as int) && match w[e.1 as int].parent {
                Some(p) => p as int == e.0 as int,
                None => false,
            },
    )
}

/// What lies in a subtree of the store and is alive is reachable from the
/// root through the child pairs.
pub proof fn lemma_subtree_is_reachable(w: Records, root: int, i: int)
    requires
        well_formed(w),
        w.len() <= u64::MAX,
        in_subtree(w, root, i),
        is_alive(w, i),
        0 <= root,
    ensures
        root <= i,
        reachable(child_pairs(w), root as u64, i as u64),
    decreases i,
{
    let pairs = child_pairs(w);
    if i == root {
        let p = seq![i as u64];
        assert(is_path(pairs, p) && p.first() == root as u64 && p.last() == i as u64);
    } else {
        let up = w[i].parent.unwrap() as int;
        lemma_subtree_is_reachable(w, root, up);
        let p = seq![up as u64, i as u64];
        assert(pairs.contains((up as u64, i as u64)));
        assert forall|k: int| 0 <= k < p.len() - 1 implies #[trigger] step_at(pairs, p, k) by {
            assert(p[0] == up as u64 && p[1] == i as u64);
        }
        assert(is_path(pairs, p) && p.first() == up as u64 && p.last() == i as u64);
        lemma_reachable_transitive(pairs, root as u64, up as u64, i as u64);
    }
}

/// A chain of child pairs that ends in a live entity stays within the
/// subtree of its first member.
pub proof fn lemma_path_is_in_subtree(w: Records, p: Seq<u64>)
    requires
        well_formed(w),
        is_path(child_pairs(w), p),
        is_alive(w, p.last() as int),
    ensures
        in_subtree(w, p.first() as int, p.last() as int),
    decreases p.len(),
{
    if p.len() > 1 {
        let q = p.drop_last();
        let n = p.len() as int;
        assert(step_at(child_pairs(w), p, n - 2));
        assert(child_pairs(w).contains((p[n - 2], p[n - 1])));
        assert forall|k: int| 0 <= k < q.len() - 1 implies #[trigger] step_at(
            child_pairs(w),
            q,
            k,
        ) by {
            assert(step_at(child_pairs(w), p, k));
        }
        assert(q.last() == p[n - 2]);
        lemma_path_is_in_subtree(w, q);
    }
}

/// The store and a host world agree on a cleanup. Take a well-formed store
/// as a host world would hold it, with its live entities, its child pairs,
/// and as targets the live entities that carry `m`, in any order: what
/// survives the despawning of the targets with their descendants are the
/// live entities of the store after its own cleanup.
pub proof fn lemma_store_agrees_with_host(w: Records, m: Marker, targets: Seq<u64>)
    requires
        well_formed(w),
        w.len() <= u64::MAX,
        forall|x: u64| targets.contains(x) <==> is_tagged(w, m, x as int),
    ensures
        survivors(live_set(w), child_pairs(w), targets) == live_set(after_cleanup(w, m)),
{
    let pairs = child_pairs(w);
    let n = targets.len() as int;
    assert forall|x: u64| is_alive(w, x as int) implies (below_target(pairs, targets, n, x)
        <==> condemned(w, m, x as int)) by {
        if below_target(pairs, targets, n, x) {
            let j = choose|j: int| 0 <= j < n && reachable(pairs, #[trigger] targets[j], x);
            let p = choose|p: Seq<u64>|
                #[trigger] is_path(pairs, p) && p.first() == targets[j] && p.last() == x;
            lemma_path_is_in_subtree(w, p);
            assert(targets.contains(targets[j]));
            assert(is_tagged(w, m, targets[j] as int));
            assert(in_subtree(w, targets[j] as int, x as int));
        }
        if condemned(w, m, x as int) {
            let r = choose|r: int| is_tagged(w, m, r) && #[trigger] in_subtree(w, r, x as int);
            lemma_subtree_is_reachable(w, r, x as int);
            assert(is_tagged(w, m, (r as u64) as int));
            assert(targets.contains(r as u64));
            let j = choose|j: int| 0 <= j < n && targets[j] == r as u64;
            assert(reachable(pairs, targets[j], x));
        }
    }
    assert forall|x: u64|
        survivors(live_set(w), pairs, targets).contains(x) <==> live_set(
            after_cleanup(w, m),
        ).contains(x) by {
        if is_alive(w, x as int) {
            assert(below_target(pairs, targets, n, x) <==> condemned(w, m, x as int));
        }
    }
    assert(survivors(live_set(w), pairs, targets) =~= live_set(after_cleanup(w, m)));
}

} // verus!
