//! Cleanup on a bevy `World`: the entities a query found are despawned, each
//! with everything below it in the hierarchy.
//!
//! `try_despawn_each` is the entry point. `despawn_each` asks of its caller
//! that bevy can despawn what it is given.

use vstd::prelude::*;

verus! {

/// Bevy's `World`, carried through as an opaque value: what it holds is
/// spoken of through `world_entities`, `world_reserved` and
/// `world_child_edges` alone.
#[verifier::external_type_specification]
#[verifier::external_body]
pub struct ExWorld(bevy::ecs::world::World);

/// The entities of a world, each as the bits of its identifier: the
/// identifiers for which `World::get_entity` gives an entity.
pub uninterp spec fn world_entities(w: bevy::ecs::world::World) -> Set<u64>;

/// The identifiers that a world has reserved and not yet given an entity.
pub uninterp spec fn world_reserved(w: bevy::ecs::world::World) -> Set<u64>;

/// The child relation of a world: the pairs `(p, c)` where `p` is an entity
/// of the world whose `Children` component lists `c`.
pub uninterp spec fn world_child_edges(w: bevy::ecs::world::World) -> Set<(u64, u64)>;

/// The least identifier of the last generation. An entity of that generation
/// cannot be despawned: its slot has no generation left to move on to.
pub const LAST_GENERATION: u64 = 0xFFFF_FFFF_0000_0000;

/// `x` is an entity of `w` or reserved in it.
pub open spec fn is_held(w: bevy::ecs::world::World, x: u64) -> bool {
    world_entities(w).contains(x) || world_reserved(w).contains(x)
}

/// Nothing that `w` holds at or below `entity` is of the last generation.
pub open spec fn can_despawn(w: bevy::ecs::world::World, entity: u64) -> bool {
    forall|x: u64|
        #![trigger reachable(world_child_edges(w), entity, x)]
        reachable(world_child_edges(w), entity, x) && is_held(w, x) ==> x < LAST_GENERATION
}

/// Whether `edges` leads from `p[k]` to `p[k + 1]`.
pub open spec fn step_at(edges: Set<(u64, u64)>, p: Seq<u64>, k: int) -> bool {
    edges.contains((p[k], p[k + 1]))
}

/// `p` is a chain of entities in which each is a child of the one before.
pub open spec fn is_path(edges: Set<(u64, u64)>, p: Seq<u64>) -> bool {
    p.len() > 0 && forall|k: int| 0 <= k < p.len() - 1 ==> #[trigger] step_at(edges, p, k)
}

/// `to` is `from` or one of its descendants, at any depth.
pub open spec fn reachable(edges: Set<(u64, u64)>, from: u64, to: u64) -> bool {
    exists|p: Seq<u64>| #[trigger] is_path(edges, p) && p.first() == from && p.last() == to
}

/// Calls bevy's `despawn_with_children_recursive`, which is taken on trust.
/// Of the entities that the world had, those that the `Children` components
/// lead to from `entity`, and `entity` itself, are despawned, and the others
/// stay; an identifier without an entity is passed over. Bevy gives the
/// reserved identifiers their entities on the way, so an entity that is new
/// afterwards was reserved before, and nothing is newly reserved. To the
/// child relation no pair is added, and every pair stays that neither starts
/// at a despawned entity nor leads to `entity`. Which of the pairs that lead
/// to `entity` remain is left open. Bevy cannot despawn an entity of the last
/// generation, so none may be held at or below `entity`.
#[verifier::external_body]
fn despawn_with_children(world: &mut bevy::ecs::world::World, entity: u64)
    requires
        can_despawn(*old(world), entity),
    ensures
        forall|x: u64|
            #![trigger world_entities(*final(world)).contains(x)]
            world_entities(*old(world)).contains(x) ==> (world_entities(*final(world)).contains(x)
                <==> !reachable(world_child_edges(*old(world)), entity, x)),
        forall|x: u64|
            #![trigger world_entities(*final(world)).contains(x)]
            world_entities(*final(world)).contains(x) && !world_entities(*old(world)).contains(x)
                ==> world_reserved(*old(world)).contains(x),
        forall|x: u64|
            #![trigger world_reserved(*final(world)).contains(x)]
            world_reserved(*final(world)).contains(x) && !world_entities(*final(world)).contains(
                x,
            ) ==> world_reserved(*old(world)).contains(x) && !world_entities(
                *old(world),
            ).contains(x),
        world_child_edges(*final(world)).subset_of(world_child_edges(*old(world))),
        forall|p: u64, c: u64|
            #![trigger world_child_edges(*final(world)).contains((p, c))]
            world_child_edges(*old(world)).contains((p, c)) && c != entity && !reachable(
                world_child_edges(*old(world)),
                entity,
                p,
            ) ==> world_child_edges(*final(world)).contains((p, c)),
{
    bevy::hierarchy::despawn_with_children_recursive(
        world,
        bevy::ecs::entity::Entity::from_bits(entity),
    );
}

/// Some target among the first `k` leads to `x`.
pub open spec fn below_target(edges: Set<(u64, u64)>, targets: Seq<u64>, k: int, x: u64) -> bool {
    exists|j: int| 0 <= j < k && reachable(edges, #[trigger] targets[j], x)
}

/// `to` is one of the first `k` targets.
pub open spec fn is_target(targets: Seq<u64>, k: int, to: u64) -> bool {
    exists|j: int| 0 <= j < k && #[trigger] targets[j] == to
}

/// The entities of `alive` that lie below none of `targets`.
pub open spec fn survivors(alive: Set<u64>, edges: Set<(u64, u64)>, targets: Seq<u64>) -> Set<u64> {
    Set::new(|x: u64| alive.contains(x) && !below_target(edges, targets, targets.len() as int, x))
}

/// A chain in a relation is a chain in every larger relation.
pub proof fn lemma_path_in_larger(small: Set<(u64, u64)>, large: Set<(u64, u64)>, p: Seq<u64>)
    requires
        small.subset_of(large),
        is_path(small, p),
    ensures
        is_path(large, p),
{
    assert forall|k: int| 0 <= k < p.len() - 1 implies #[trigger] step_at(large, p, k) by {
        assert(step_at(small, p, k));
    }
}

/// The end of a chain is reachable from each of its members.
pub proof fn lemma_reachable_from_member(edges: Set<(u64, u64)>, p: Seq<u64>, i: int)
    requires
        is_path(edges, p),
        0 <= i < p.len(),
    ensures
        reachable(edges, p[i], p.last()),
{
    let q = p.subrange(i, p.len() as int);
    assert forall|k: int| 0 <= k < q.len() - 1 implies #[trigger] step_at(edges, q, k) by {
        assert(step_at(edges, p, i + k));
    }
    assert(is_path(edges, q) && q.first() == p[i] && q.last() == p.last());
}

/// What is reachable from something reachable is reachable.
pub proof fn lemma_reachable_transitive(edges: Set<(u64, u64)>, a: u64, b: u64, c: u64)
    requires
        reachable(edges, a, b),
        reachable(edges, b, c),
    ensures
        reachable(edges, a, c),
{
    let p = choose|p: Seq<u64>| #[trigger] is_path(edges, p) && p.first() == a && p.last() == b;
    let q = choose|q: Seq<u64>| #[trigger] is_path(edges, q) && q.first() == b && q.last() == c;
    let r = p + q.subrange(1, q.len() as int);
    assert forall|k: int| 0 <= k < r.len() - 1 implies #[trigger] step_at(edges, r, k) by {
        if k < p.len() - 1 {
            assert(step_at(edges, p, k));
        } else {
            assert(step_at(edges, q, k - (p.len() - 1)));
        }
    }
    assert(is_path(edges, r) && r.first() == a && r.last() == c);
}

/// A chain that ends in an entity below no target survives the despawning of
/// the targets: none of its pairs starts below a target or leads to one.
proof fn lemma_path_survives(
    before: Set<(u64, u64)>,
    now: Set<(u64, u64)>,
    targets: Seq<u64>,
    k: int,
    p: Seq<u64>,
)
    requires
        is_path(before, p),
        !below_target(before, targets, k, p.last()),
        forall|a: u64, b: u64|
            #![trigger now.contains((a, b))]
            before.contains((a, b)) && !below_target(before, targets, k, a) && !is_target(
                targets,
                k,
                b,
            ) ==> now.contains((a, b)),
    ensures
        is_path(now, p),
{
    assert forall|i: int| 0 <= i < p.len() - 1 implies #[trigger] step_at(now, p, i) by {
        assert(step_at(before, p, i));
        lemma_reachable_from_member(before, p, i);
        lemma_reachable_from_member(before, p, i + 1);
        if below_target(before, targets, k, p[i]) {
            let j = choose|j: int| 0 <= j < k && reachable(before, #[trigger] targets[j], p[i]);
            lemma_reachable_transitive(before, targets[j], p[i], p.last());
        }
        if is_target(targets, k, p[i + 1]) {
            let j = choose|j: int| 0 <= j < k && #[trigger] targets[j] == p[i + 1];
            assert(reachable(before, targets[j], p.last()));
        }
    }
}

/// Nothing that `w` holds at or below one of `targets` is of the last
/// generation.
pub open spec fn can_despawn_each(w: bevy::ecs::world::World, targets: Seq<u64>) -> bool {
    forall|x: u64|
        #![trigger below_target(world_child_edges(w), targets, targets.len() as int, x)]
        below_target(world_child_edges(w), targets, targets.len() as int, x) && is_held(w, x)
            ==> x < LAST_GENERATION
}

/// What `despawn_each` makes of `before`: of its entities exactly those
/// below no target are left, every new entity was reserved, nothing is newly
/// reserved, and the child relation has lost at most the pairs that start
/// below a target or lead to one.
pub open spec fn despawned_each(
    before: bevy::ecs::world::World,
    after: bevy::ecs::world::World,
    targets: Seq<u64>,
) -> bool {
    &&& forall|x: u64|
        #![trigger world_entities(after).contains(x)]
        world_entities(before).contains(x) ==> (world_entities(after).contains(x) <==> survivors(
            world_entities(before),
            world_child_edges(before),
            targets,
        ).contains(x))
    &&& forall|x: u64|
        #![trigger world_entities(after).contains(x)]
        world_entities(after).contains(x) && !world_entities(before).contains(x)
            ==> world_reserved(before).contains(x)
    &&& forall|x: u64|
        #![trigger world_reserved(after).contains(x)]
        world_reserved(after).contains(x) && !world_entities(after).contains(x)
            ==> world_reserved(before).contains(x) && !world_entities(before).contains(x)
    &&& world_child_edges(after).subset_of(world_child_edges(before))
    &&& forall|a: u64, b: u64|
        #![trigger world_child_edges(after).contains((a, b))]
        world_child_edges(before).contains((a, b)) && !below_target(
            world_child_edges(before),
            targets,
            targets.len() as int,
            a,
        ) && !is_target(targets, targets.len() as int, b) ==> world_child_edges(after).contains(
            (a, b),
        )
}

/// Despawns each of `targets` with all its descendants, in the order given:
/// what the exit handler does with the entities that its query found. A
/// target without an entity is passed over.
pub fn despawn_each(world: &mut bevy::ecs::world::World, targets: &Vec<u64>)
    requires
        can_despawn_each(*old(world), targets@),
    ensures
        despawned_each(*old(world), *final(world), targets@),
{
    let ghost first = *world;
    let ghost alive = world_entities(*world);
    let ghost edges = world_child_edges(*world);
    let mut k: usize = 0;
    while k < targets.len()
        invariant
            k <= targets@.len(),
            alive == world_entities(first),
            edges == world_child_edges(first),
            can_despawn_each(first, targets@),
            forall|x: u64|
                #![trigger world_entities(*world).contains(x)]
                alive.contains(x) ==> (world_entities(*world).contains(x) <==> !below_target(
                    edges,
                    targets@,
                    k as int,
                    x,
                )),
            forall|x: u64|
                #![trigger world_entities(*world).contains(x)]
                world_entities(*world).contains(x) && !alive.contains(x) ==> world_reserved(
                    first,
                ).contains(x),
            forall|x: u64|
                #![trigger world_reserved(*world).contains(x)]
                world_reserved(*world).contains(x) && !world_entities(*world).contains(x)
                    ==> world_reserved(first).contains(x) && !alive.contains(x),
            world_child_edges(*world).subset_of(edges),
            forall|a: u64, b: u64|
                #![trigger world_child_edges(*world).contains((a, b))]
                edges.contains((a, b)) && !below_target(edges, targets@, k as int, a)
                    && !is_target(targets@, k as int, b) ==> world_child_edges(*world).contains(
                    (a, b),
                ),
        decreases targets@.len() - k,
    {
        let t: u64 = targets[k];
        let ghost now = world_child_edges(*world);
        let ghost living = world_entities(*world);
        let ghost kept = world_reserved(*world);
        proof {
            assert forall|x: u64|
                #![trigger reachable(now, t, x)]
                reachable(now, t, x) && is_held(*world, x) implies x < LAST_GENERATION by {
                let p = choose|p: Seq<u64>|
                    #[trigger] is_path(now, p) && p.first() == t && p.last() == x;
                lemma_path_in_larger(now, edges, p);
                assert(reachable(edges, targets@[k as int], x));
                assert(below_target(edges, targets@, targets@.len() as int, x));
                assert(living.contains(x) || kept.contains(x));
                assert(is_held(first, x));
            }
        }
        despawn_with_children(world, t);
        proof {
            assert forall|x: u64| below_target(edges, targets@, k + 1, x) <==> (below_target(
                edges,
                targets@,
                k as int,
                x,
            ) || reachable(edges, t, x)) by {
                if below_target(edges, targets@, k + 1, x) {
                    let j = choose|j: int|
                        0 <= j < k + 1 && reachable(edges, #[trigger] targets@[j], x);
                    if j < k {
                        assert(below_target(edges, targets@, k as int, x));
                    }
                }
                if reachable(edges, t, x) {
                    assert(reachable(edges, targets@[k as int], x));
                }
                if below_target(edges, targets@, k as int, x) {
                    let j = choose|j: int|
                        0 <= j < k && reachable(edges, #[trigger] targets@[j], x);
                    assert(0 <= j < k + 1);
                }
            }
            assert forall|x: u64|
                #![trigger world_entities(*world).contains(x)]
                alive.contains(x) implies (world_entities(*world).contains(x) <==> !below_target(
                    edges,
                    targets@,
                    k + 1,
                    x,
                )) by {
                if living.contains(x) {
                    if reachable(now, t, x) {
                        let p = choose|p: Seq<u64>|
                            #[trigger] is_path(now, p) && p.first() == t && p.last() == x;
                        lemma_path_in_larger(now, edges, p);
                    }
                    if reachable(edges, t, x) {
                        let p = choose|p: Seq<u64>|
                            #[trigger] is_path(edges, p) && p.first() == t && p.last() == x;
                        lemma_path_survives(edges, now, targets@, k as int, p);
                    }
                } else {
                    if world_entities(*world).contains(x) {
                        assert(kept.contains(x));
                    }
                }
            }
            assert forall|a: u64, b: u64|
                #![trigger world_child_edges(*world).contains((a, b))]
                edges.contains((a, b)) && !below_target(edges, targets@, k + 1, a) && !is_target(
                    targets@,
                    k + 1,
                    b,
                ) implies world_child_edges(*world).contains((a, b)) by {
                if !is_target(targets@, k as int, b) {
                } else {
                    let j = choose|j: int| 0 <= j < k && #[trigger] targets@[j] == b;
                    assert(0 <= j < k + 1);
                }
                assert(now.contains((a, b)));
                if b == t {
                    assert(targets@[k as int] == b);
                }
                if reachable(now, t, a) {
                    let p = choose|p: Seq<u64>|
                        #[trigger] is_path(now, p) && p.first() == t && p.last() == a;
                    lemma_path_in_larger(now, edges, p);
                }
            }
        }
        k += 1;
    }
}

/// Calls bevy's `World::iter_entities`, which is taken on trust: the result
/// lists the entities of the world, and so the start of every pair of the
/// child relation.
#[verifier::external_body]
fn live_entities(world: &bevy::ecs::world::World) -> (found: Vec<u64>)
    ensures
        forall|x: u64| #[trigger] found@.contains(x) <==> world_entities(*world).contains(x),
        forall|p: u64, c: u64|
            #[trigger] world_child_edges(*world).contains((p, c)) ==> found@.contains(p),
{
    world.iter_entities().map(|e| e.id().to_bits()).collect()
}

/// Calls bevy's `World::get` for the `Children` component of `entity`, which
/// is taken on trust: the result lists what the child relation leads to from
/// `entity`, and is `None` where `entity` has no such component.
#[verifier::external_body]
fn children_of(world: &bevy::ecs::world::World, entity: u64) -> (listed: Option<Vec<u64>>)
    ensures
        match listed {
            Some(children) => forall|c: u64|
                #[trigger] children@.contains(c) <==> world_child_edges(*world).contains(
                    (entity, c),
                ),
            None => forall|c: u64| !#[trigger] world_child_edges(*world).contains((entity, c)),
        },
{
    world.get::<bevy::hierarchy::Children>(bevy::ecs::entity::Entity::from_bits(entity)).map(
        |children| children.iter().map(|c| c.to_bits()).collect(),
    )
}

/// Nothing at or below one of `targets` is of the last generation, whether
/// `w` holds it or not.
pub open spec fn within_generations(w: bevy::ecs::world::World, targets: Seq<u64>) -> bool {
    forall|x: u64|
        #![trigger below_target(world_child_edges(w), targets, targets.len() as int, x)]
        below_target(world_child_edges(w), targets, targets.len() as int, x) ==> x
            < LAST_GENERATION
}

/// Whether no identifier in `ids` is of the last generation.
pub fn all_before_last_generation(ids: &Vec<u64>) -> (b: bool)
    ensures
        b == forall|j: int| 0 <= j < ids@.len() ==> #[trigger] ids@[j] < LAST_GENERATION,
{
    let mut k: usize = 0;
    while k < ids.len()
        invariant
            k <= ids@.len(),
            forall|j: int| 0 <= j < k ==> #[trigger] ids@[j] < LAST_GENERATION,
        decreases ids@.len() - k,
    {
        if ids[k] >= LAST_GENERATION {
            return false;
        }
        k += 1;
    }
    true
}

/// The first place of `x` in `ids`, if it has one.
fn position(ids: &Vec<u64>, x: u64) -> (at: Option<usize>)
    ensures
        match at {
            Some(h) => h < ids@.len() && ids@[h as int] == x,
            None => !ids@.contains(x),
        },
{
    let mut k: usize = 0;
    while k < ids.len()
        invariant
            k <= ids@.len(),
            forall|j: int| 0 <= j < k ==> ids@[j] != x,
        decreases ids@.len() - k,
    {
        if ids[k] == x {
            return Some(k);
        }
        k += 1;
    }
    None
}

/// How many of `seen` are not set.
spec fn unseen(seen: Seq<bool>) -> nat
    decreases seen.len(),
{
    if seen.len() == 0 {
        0
    } else {
        unseen(seen.drop_last()) + if seen.last() { 0nat } else { 1nat }
    }
}

proof fn lemma_one_more_seen(seen: Seq<bool>, h: int)
    requires
        0 <= h < seen.len(),
        !seen[h],
    ensures
        unseen(seen.update(h, true)) < unseen(seen),
    decreases seen.len(),
{
    if h == seen.len() - 1 {
        assert(seen.update(h, true).drop_last() =~= seen.drop_last());
    } else {
        assert(seen.update(h, true).drop_last() =~= seen.drop_last().update(h, true));
        lemma_one_more_seen(seen.drop_last(), h);
    }
}

/// `x` has been visited: it stands in `live` at a place that `seen` marks.
spec fn is_seen(live: Seq<u64>, seen: Seq<bool>, x: u64) -> bool {
    exists|h: int| 0 <= h < live.len() && h < seen.len() && #[trigger] live[h] == x && seen[h]
}

/// `x` needs no further visit: it waits in `open`, or has been visited, or
/// is no entity.
spec fn is_settled(live: Seq<u64>, seen: Seq<bool>, open: Seq<u64>, x: u64) -> bool {
    open.contains(x) || is_seen(live, seen, x) || !live.contains(x)
}

/// Every child of a visited entity is before the last generation and
/// settled.
spec fn is_closed(
    edges: Set<(u64, u64)>,
    live: Seq<u64>,
    seen: Seq<bool>,
    open: Seq<u64>,
) -> bool {
    forall|h: int, c: u64|
        #![trigger edges.contains((live[h], c))]
        0 <= h < live.len() && h < seen.len() && seen[h] && edges.contains((live[h], c)) ==> c
            < LAST_GENERATION && is_settled(live, seen, open, c)
}

/// A child of something below a target is below that target.
proof fn lemma_child_below_target(
    edges: Set<(u64, u64)>,
    targets: Seq<u64>,
    k: int,
    v: u64,
    c: u64,
)
    requires
        below_target(edges, targets, k, v),
        edges.contains((v, c)),
    ensures
        below_target(edges, targets, k, c),
{
    let j = choose|j: int| 0 <= j < k && reachable(edges, #[trigger] targets[j], v);
    let p = seq![v, c];
    assert forall|i: int| 0 <= i < p.len() - 1 implies #[trigger] step_at(edges, p, i) by {
        assert(p[0] == v && p[1] == c);
    }
    assert(is_path(edges, p) && p.first() == v && p.last() == c);
    lemma_reachable_transitive(edges, targets[j], v, c);
}

/// A target is below itself.
proof fn lemma_target_below_itself(edges: Set<(u64, u64)>, targets: Seq<u64>, j: int)
    requires
        0 <= j < targets.len(),
    ensures
        below_target(edges, targets, targets.len() as int, targets[j]),
{
    let p = seq![targets[j]];
    assert(is_path(edges, p) && p.first() == targets[j] && p.last() == targets[j]);
    assert(reachable(edges, targets[j], targets[j]));
}

/// Once nothing waits to be visited, every member of a chain that starts at
/// a target is before the last generation and settled.
proof fn lemma_closed_covers_path(
    edges: Set<(u64, u64)>,
    live: Seq<u64>,
    seen: Seq<bool>,
    targets: Seq<u64>,
    p: Seq<u64>,
    k: int,
)
    requires
        is_path(edges, p),
        0 <= k < p.len(),
        targets.contains(p.first()),
        forall|j: int| 0 <= j < targets.len() ==> #[trigger] targets[j] < LAST_GENERATION,
        forall|j: int|
            0 <= j < targets.len() ==> is_settled(
                live,
                seen,
                Seq::<u64>::empty(),
                #[trigger] targets[j],
            ),
        is_closed(edges, live, seen, Seq::<u64>::empty()),
        forall|a: u64, b: u64| #[trigger] edges.contains((a, b)) ==> live.contains(a),
    ensures
        p[k] < LAST_GENERATION,
        is_settled(live, seen, Seq::<u64>::empty(), p[k]),
    decreases k,
{
    if k == 0 {
        let j = choose|j: int| 0 <= j < targets.len() && targets[j] == p.first();
        assert(targets[j] < LAST_GENERATION);
    } else {
        lemma_closed_covers_path(edges, live, seen, targets, p, k - 1);
        assert(step_at(edges, p, k - 1));
        assert(edges.contains((p[k - 1], p[k])));
        assert(live.contains(p[k - 1]));
        assert(!Seq::<u64>::empty().contains(p[k - 1]));
        let h = choose|h: int|
            0 <= h < live.len() && h < seen.len() && #[trigger] live[h] == p[k - 1] && seen[h];
        assert(edges.contains((live[h], p[k])));
    }
}

/// Whether nothing at or below one of `targets` is of the last generation:
/// walks the subtrees of the targets through the `Children` components,
/// visiting each entity once.
pub fn subtrees_before_last_generation(
    world: &bevy::ecs::world::World,
    targets: &Vec<u64>,
) -> (b: bool)
    ensures
        b == within_generations(*world, targets@),
{
    let ghost edges = world_child_edges(*world);
    let ghost n = targets@.len() as int;
    if !all_before_last_generation(targets) {
        proof {
            let j = choose|j: int|
                0 <= j < targets@.len() && !(#[trigger] targets@[j] < LAST_GENERATION);
            lemma_target_below_itself(edges, targets@, j);
        }
        return false;
    }
    let live = live_entities(world);
    let mut seen: Vec<bool> = Vec::new();
    while seen.len() < live.len()
        invariant
            seen@.len() <= live@.len(),
            forall|h: int| 0 <= h < seen@.len() ==> !seen@[h],
        decreases live@.len() - seen@.len(),
    {
        seen.push(false);
    }
    let mut open: Vec<u64> = Vec::new();
    let mut k: usize = 0;
    while k < targets.len()
        invariant
            k <= targets@.len(),
            open@ == targets@.take(k as int),
        decreases targets@.len() - k,
    {
        open.push(targets[k]);
        assert(open@ =~= targets@.take(k + 1));
        k += 1;
    }
    proof {
        assert(open@ =~= targets@);
        assert forall|i: int| 0 <= i < open@.len() implies below_target(
            edges,
            targets@,
            n,
            #[trigger] open@[i],
        ) by {
            lemma_target_below_itself(edges, targets@, i);
        }
        assert forall|j: int| 0 <= j < targets@.len() implies is_settled(
            live@,
            seen@,
            open@,
            #[trigger] targets@[j],
        ) by {
            assert(open@[j] == targets@[j]);
        }
    }
    while open.len() > 0
        invariant
            edges == world_child_edges(*world),
            n == targets@.len(),
            seen@.len() == live@.len(),
            forall|a: u64, b: u64| #[trigger] edges.contains((a, b)) ==> live@.contains(a),
            forall|j: int| 0 <= j < targets@.len() ==> #[trigger] targets@[j] < LAST_GENERATION,
            forall|i: int|
                0 <= i < open@.len() ==> below_target(edges, targets@, n, #[trigger] open@[i]),
            forall|j: int|
                0 <= j < targets@.len() ==> is_settled(
                    live@,
                    seen@,
                    open@,
                    #[trigger] targets@[j],
                ),
            is_closed(edges, live@, seen@, open@),
        decreases unseen(seen@), open@.len(),
    {
        let ghost open0 = open@;
        let ghost seen0 = seen@;
        let v: u64 = open.pop().unwrap();
        let ghost open1 = open@;
        assert(open0[open0.len() - 1] == v);
        assert(below_target(edges, targets@, n, v));
        let at = position(&live, v);
        let fresh: bool = match at {
            Some(h) => !seen[h],
            None => false,
        };
        if fresh {
            let h: usize = at.unwrap();
            let kids: Vec<u64> = match children_of(world, v) {
                Some(listed) => listed,
                None => Vec::new(),
            };
            assert forall|c: u64| kids@.contains(c) <==> edges.contains((v, c)) by {}
            if !all_before_last_generation(&kids) {
                proof {
                    let j = choose|j: int|
                        0 <= j < kids@.len() && !(#[trigger] kids@[j] < LAST_GENERATION);
                    assert(kids@.contains(kids@[j]));
                    lemma_child_below_target(edges, targets@, n, v, kids@[j]);
                }
                return false;
            }
            seen.set(h, true);
            let mut i: usize = 0;
            while i < kids.len()
                invariant
                    i <= kids@.len(),
                    open@ == open1 + kids@.take(i as int),
                decreases kids@.len() - i,
            {
                open.push(kids[i]);
                assert(open@ =~= open1 + kids@.take(i + 1));
                i += 1;
            }
            proof {
                assert(kids@.take(kids@.len() as int) =~= kids@);
                lemma_one_more_seen(seen0, h as int);
                let seen2 = seen@;
                let open2 = open@;
                assert(seen2 == seen0.update(h as int, true));
                assert forall|x: u64| is_settled(live@, seen0, open0, x) implies is_settled(
                    live@,
                    seen2,
                    open2,
                    x,
                ) by {
                    if open0.contains(x) {
                        let i0 = choose|i0: int| 0 <= i0 < open0.len() && open0[i0] == x;
                        if i0 < open0.len() - 1 {
                            assert(open2[i0] == x);
                        } else {
                            assert(live@[h as int] == x && seen2[h as int]);
                        }
                    } else if is_seen(live@, seen0, x) {
                        let g = choose|g: int|
                            0 <= g < live@.len() && g < seen0.len() && #[trigger] live@[g] == x
                                && seen0[g];
                        assert(live@[g] == x && seen2[g]);
                    }
                }
                assert forall|i: int| 0 <= i < open2.len() implies below_target(
                    edges,
                    targets@,
                    n,
                    #[trigger] open2[i],
                ) by {
                    if i < open1.len() {
                        assert(open2[i] == open0[i]);
                    } else {
                        let c = kids@[i - open1.len()];
                        assert(open2[i] == c);
                        assert(kids@.contains(c));
                        lemma_child_below_target(edges, targets@, n, v, c);
                    }
                }
                assert forall|g: int, c: u64|
                    #![trigger edges.contains((live@[g], c))]
                    0 <= g < live@.len() && g < seen2.len() && seen2[g] && edges.contains(
                        (live@[g], c),
                    ) implies c < LAST_GENERATION && is_settled(live@, seen2, open2, c) by {
                    if seen0[g] {
                        assert(is_settled(live@, seen0, open0, c));
                    } else {
                        assert(g == h);
                        assert(kids@.contains(c));
                        let i1 = choose|i1: int| 0 <= i1 < kids@.len() && kids@[i1] == c;
                        assert(kids@[i1] < LAST_GENERATION);
                        assert(open2[open1.len() + i1] == c);
                    }
                }
            }
        } else {
            proof {
                assert forall|x: u64| is_settled(live@, seen0, open0, x) implies is_settled(
                    live@,
                    seen0,
                    open1,
                    x,
                ) by {
                    if open0.contains(x) {
                        let i0 = choose|i0: int| 0 <= i0 < open0.len() && open0[i0] == x;
                        if i0 < open0.len() - 1 {
                            assert(open1[i0] == x);
                        } else {
                            match at {
                                Some(h) => {
                                    assert(live@[h as int] == x && seen0[h as int]);
                                },
                                None => {},
                            }
                        }
                    }
                }
                assert forall|i: int| 0 <= i < open1.len() implies below_target(
                    edges,
                    targets@,
                    n,
                    #[trigger] open1[i],
                ) by {
                    assert(open1[i] == open0[i]);
                }
            }
        }
    }
    proof {
        assert(open@ =~= Seq::<u64>::empty());
        assert forall|x: u64|
            #![trigger below_target(edges, targets@, n, x)]
            below_target(edges, targets@, n, x) implies x < LAST_GENERATION by {
            let j = choose|j: int| 0 <= j < n && reachable(edges, #[trigger] targets@[j], x);
            let p = choose|p: Seq<u64>|
                #[trigger] is_path(edges, p) && p.first() == targets@[j] && p.last() == x;
            assert(targets@.contains(p.first()));
            lemma_closed_covers_path(edges, live@, seen@, targets@, p, p.len() - 1);
        }
    }
    true
}

/// Despawns each of `targets` with all its descendants, as `despawn_each`
/// does, where nothing at or below a target is of the last generation.
/// Otherwise it leaves the world as it is and returns `false`.
pub fn try_despawn_each(world: &mut bevy::ecs::world::World, targets: &Vec<u64>) -> (done: bool)
    ensures
        done == within_generations(*old(world), targets@),
        done ==> despawned_each(*old(world), *final(world), targets@),
        !done ==> *final(world) == *old(world),
{
    if !subtrees_before_last_generation(world, targets) {
        return false;
    }
    despawn_each(world, targets);
    true
}

/// No target survives, nor anything below a target.
pub proof fn lemma_targets_and_descendants_leave(
    alive: Set<u64>,
    edges: Set<(u64, u64)>,
    targets: Seq<u64>,
    j: int,
    x: u64,
)
    requires
        0 <= j < targets.len(),
        reachable(edges, targets[j], x),
    ensures
        !survivors(alive, edges, targets).contains(x),
        !survivors(alive, edges, targets).contains(targets[j]),
{
    let p = seq![targets[j]];
    assert(is_path(edges, p) && p.first() == targets[j] && p.last() == targets[j]);
    assert(reachable(edges, targets[j], targets[j]));
}

/// An entity below no target is alive afterwards exactly if it was before.
pub proof fn lemma_the_rest_stays(
    alive: Set<u64>,
    edges: Set<(u64, u64)>,
    targets: Seq<u64>,
    x: u64,
)
    requires
        forall|j: int| 0 <= j < targets.len() ==> !reachable(edges, #[trigger] targets[j], x),
    ensures
        survivors(alive, edges, targets).contains(x) == alive.contains(x),
{
}

/// Without targets nothing is despawned.
pub proof fn lemma_no_targets_no_change(alive: Set<u64>, edges: Set<(u64, u64)>)
    ensures
        survivors(alive, edges, Seq::<u64>::empty()) == alive,
{
    assert(survivors(alive, edges, Seq::<u64>::empty()) =~= alive);
}

} // verus!
