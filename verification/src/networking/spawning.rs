//! What a client is told to spawn for a networked entity, and how urgently.
use vstd::prelude::*;
use super::controls::ClientControls;
use super::players::ConnectionId;
use crate::entity::Entity;

verus! {

/// The priority of a spawn message for an entity that a player controls.
pub const CONTROLLED_SPAWN_PRIORITY: i16 = 60;

/// The priority of any other spawn message.
pub const SPAWN_PRIORITY: i16 = 50;

/// The priority of a despawn message.
pub const DESPAWN_MESSAGE_PRIORITY: i16 = -10;

/// How the client finds the object to spawn.
#[derive(Debug, Clone, Copy, PartialEq, Eq)]
pub enum SpawnKind {
    /// A prefab, by its name.
    Named,
    /// A scene asset, by its asset path.
    AssetPath,
    /// An object with no asset, used as a reference; whether it is shown in the world.
    Empty { in_world: bool },
}

/// The scene an entity was made from, if any.
#[derive(Debug, Clone, Copy, PartialEq, Eq)]
pub enum SceneRef {
    /// No scene.
    Missing,
    /// A scene whose asset has not loaded yet.
    Loading,
    /// A loaded scene, known by its asset path.
    ByPath,
    /// A loaded scene whose handle was made at run time, with no asset path.
    Dynamic,
}

/// The spawn message an entity gets, given whether it has a prefab name, its scene,
/// whether it has a parent, whether it is shown in the world and whether a player
/// controls it.
pub open spec fn spawn_choice(
    prefab: bool,
    scene: SceneRef,
    has_parent: bool,
    in_world: bool,
    controlled: bool,
) -> Option<(SpawnKind, i16)> {
    let priority: i16 = if controlled { 60 } else { 50 };
    match (prefab, scene) {
        (_, SceneRef::Loading) => None,
        (false, SceneRef::Missing) => if has_parent {
            None
        } else {
            Some((SpawnKind::Empty { in_world }, priority))
        },
        (false, SceneRef::ByPath) => Some((SpawnKind::AssetPath, priority)),
        (false, SceneRef::Dynamic) => None,
        (true, SceneRef::Missing) => Some((SpawnKind::Named, priority)),
        (true, _) => None,
    }
}

/// Decides the spawn message for an entity that new observers see: `None` where none is
/// sent. A scene that has not loaded waits; an entity with neither prefab nor scene is
/// spawned empty only where it has no parent; a scene without an asset path, or a prefab
/// together with a scene, cannot be spawned. Entities that a player controls are sent
/// first.
pub fn spawn_decision(
    prefab: bool,
    scene: SceneRef,
    has_parent: bool,
    in_world: bool,
    controlled: bool,
) -> (r: Option<(SpawnKind, i16)>)
    ensures
        r == spawn_choice(prefab, scene, has_parent, in_world, controlled),
{
    let priority = if controlled { CONTROLLED_SPAWN_PRIORITY } else { SPAWN_PRIORITY };
    match scene {
        SceneRef::Loading => None,
        SceneRef::Missing => if prefab {
            Some((SpawnKind::Named, priority))
        } else if has_parent {
            None
        } else {
            Some((SpawnKind::Empty { in_world }, priority))
        },
        SceneRef::ByPath => if prefab {
            None
        } else {
            Some((SpawnKind::AssetPath, priority))
        },
        SceneRef::Dynamic => None,
    }
}

/// Decides the spawn message for `entity`, asking `controls` whether a player controls it.
pub fn entity_spawn_decision(
    controls: &ClientControls,
    entity: Entity,
    prefab: bool,
    scene: SceneRef,
    has_parent: bool,
    in_world: bool,
) -> (r: Option<(SpawnKind, i16)>)
    ensures
        r == spawn_choice(
            prefab,
            scene,
            has_parent,
            in_world,
            controls.reverse_view().contains_key(entity.0),
        ),
{
    let controlled = controls.controlling_player(entity).is_some();
    spawn_decision(prefab, scene, has_parent, in_world, controlled)
}

/// The observers that get a despawn message: those that stopped seeing the entity and
/// are still connected, in the order given.
pub fn despawn_receivers(removed: &Vec<ConnectionId>, connected: &Vec<ConnectionId>) -> (r: Vec<
    ConnectionId,
>)
    ensures
        r@ == removed@.filter(|x: ConnectionId| connected@.contains(x)),
{
    let mut out: Vec<ConnectionId> = Vec::new();
    let mut i: usize = 0;
    while i < removed.len()
        invariant
            i <= removed.len(),
            out@ == removed@.take(i as int).filter(|x: ConnectionId| connected@.contains(x)),
        decreases removed.len() - i,
    {
        let c = removed[i];
        let mut found = false;
        let mut j: usize = 0;
        while j < connected.len()
            invariant
                j <= connected.len(),
                found <==> exists|k: int| 0 <= k < j && connected@[k] == c,
            decreases connected.len() - j,
        {
            if connected[j].0 == c.0 {
                found = true;
            }
            j += 1;
        }
        proof {
            assert(removed@.take(i + 1).drop_last() =~= removed@.take(i as int));
            assert(removed@.take(i + 1).last() == c);
            if found {
                let k = choose|k: int| 0 <= k < connected.len() && connected@[k] == c;
                assert(connected@.contains(c));
            } else {
                assert(!connected@.contains(c));
            }
        }
        if found {
            out.push(c);
        }
        proof {
            reveal(Seq::filter);
            let pred = |x: ConnectionId| connected@.contains(x);
            assert(removed@.take(i + 1).filter(pred) == (if pred(c) {
                removed@.take(i as int).filter(pred).push(c)
            } else {
                removed@.take(i as int).filter(pred)
            }));
        }
        i += 1;
    }
    assert(removed@.take(removed.len() as int) =~= removed@);
    out
}

} // verus!
