use std::borrow::Cow;

use station::entity::Entity;
use station::networking::controls::ClientControls;
use station::networking::identity::{NetworkIdentities, NetworkIdentity};
use station::networking::messaging::Channel;
use station::networking::players::{ConnectionId, Players};
use station::networking::registry::NetworkRegistry;
use station::networking::spawning::{
    despawn_receivers, entity_spawn_decision, spawn_decision, SceneRef, SpawnKind,
    DESPAWN_MESSAGE_PRIORITY,
};
use station::networking::variable::{NetworkVar, NetworkedSide, ServerVar, ValueUpdate};
use station::networking::visibility::NetworkVisibility;

#[test]
fn networked_side_names_its_variable() {
    assert_eq!(NetworkedSide::Server.variable_name(), "NetworkVar");
    assert_eq!(NetworkedSide::Client.variable_name(), "ServerVar");
}

#[test]
fn channel_ids_are_distinct() {
    assert_eq!(Channel::Default.id(), 0);
    assert_eq!(Channel::DefaultUnreliable.id(), 1);
    assert_eq!(Channel::Timing.id(), 2);
    assert_eq!(Channel::Transforms.id(), 3);
}

#[test]
fn network_var_tracks_changes() {
    let mut var = NetworkVar::from_default(5u32);
    assert!(!var.has_changed_since(0));
    assert_eq!(*var.value(), 5);

    *var.value_mut() = 7;
    assert_eq!(*var.value(), 7);
    assert!(var.has_changed_since(100));

    assert!(var.update_state(10));
    assert!(!var.update_state(11));
    assert!(var.has_changed_since(9));
    assert!(!var.has_changed_since(10));
}

#[test]
fn network_var_from_value_is_sent() {
    let var = NetworkVar::from_value(String::from("x"));
    assert!(var.has_changed_since(u32::MAX));
    assert_eq!(var.value(), "x");
}

#[test]
fn server_var_holds_what_was_set() {
    let mut var: ServerVar<u8> = ServerVar::uninitialized();
    assert_eq!(var.get(), None);
    var.set(3);
    assert_eq!(var.get(), Some(&3));
    assert_eq!(*var.value(), 3);
    let other = ServerVar::from_default(9u8);
    assert_eq!(*other.value(), 9);
}

#[test]
fn value_updates_own_or_borrow() {
    let owned = ValueUpdate::owned(4u8);
    assert!(matches!(owned.0, Cow::Owned(4)));
    let v = 6u8;
    let borrowed = ValueUpdate::borrowed(&v);
    assert!(matches!(borrowed.0, Cow::Borrowed(&6)));
}

#[test]
fn registry_ids_follow_uuid_order() {
    let mut registry: NetworkRegistry<()> = NetworkRegistry::new();
    assert!(registry.register(30));
    assert!(registry.register(10));
    assert!(registry.register(20));
    assert!(!registry.register(20));

    assert_eq!(registry.get_id(10), Some(0));
    assert_eq!(registry.get_id(20), Some(1));
    assert_eq!(registry.get_id(30), Some(2));
    assert_eq!(registry.get_id(40), None);
    assert_eq!(registry.get_uuid(1), Some(&20));
    assert_eq!(registry.get_uuid(3), None);
}

#[test]
fn identities_work_both_ways() {
    let mut ids = NetworkIdentities::new();
    let a = ids.assign_next(Entity(100));
    let b = ids.assign_next(Entity(200));
    assert_eq!(a, NetworkIdentity(1));
    assert_eq!(b, NetworkIdentity(2));
    assert_eq!(a.next(), b);

    assert_eq!(ids.get_entity(a), Some(Entity(100)));
    assert_eq!(ids.get_identity(Entity(200)), Some(b));

    ids.set_identity(Entity(300), NetworkIdentity(50));
    assert_eq!(ids.get_entity(NetworkIdentity(50)), Some(Entity(300)));

    ids.remove_entity(Entity(100));
    assert_eq!(ids.get_entity(a), None);
    assert_eq!(ids.get_identity(Entity(100)), None);
    assert_eq!(ids.get_identity(Entity(200)), Some(b));

    // numbering goes on after a removal
    assert_eq!(ids.assign_next(Entity(400)), NetworkIdentity(3));
}

#[test]
fn control_moves_between_entities() {
    let mut controls = ClientControls::new();
    assert!(!controls.has_changed(1));
    controls.give_control(1, Entity(10));
    assert!(controls.does_control(1, Entity(10)));
    assert_eq!(controls.controlling_player(Entity(10)), Some(1));
    assert!(controls.has_changed(1));

    controls.give_control(1, Entity(11));
    assert!(!controls.does_control(1, Entity(10)));
    assert_eq!(controls.controlled_entity(1), Some(Entity(11)));
    assert_eq!(controls.controlling_player(Entity(10)), None);
    assert_eq!(controls.controlling_player(Entity(11)), Some(1));
    assert_eq!(controls.controlled_entity(2), None);
}

#[test]
fn players_are_found_by_connection_and_id() {
    let mut players = Players::new();
    players.add(ConnectionId(1), 77, "alice".to_owned());
    players.add(ConnectionId(2), 88, "bob".to_owned());

    assert_eq!(players.get(ConnectionId(1)).unwrap().username, "alice");
    assert_eq!(players.players().len(), 2);
    assert_eq!(players.get_connection(88), Some(ConnectionId(2)));

    let removed = players.remove(ConnectionId(1)).unwrap();
    assert_eq!(removed.id, 77);
    assert!(players.get(ConnectionId(1)).is_none());
    assert_eq!(players.get_connection(77), None);
    assert!(players.remove(ConnectionId(1)).is_none());
    assert_eq!(players.get_connection(88), Some(ConnectionId(2)));
}

fn ids(v: Vec<ConnectionId>) -> Vec<u64> {
    let mut out: Vec<u64> = v.into_iter().map(|c| c.0).collect();
    out.sort();
    out
}

#[test]
fn visibility_lifecycle() {
    let mut vis = NetworkVisibility::new();
    vis.add_observer(ConnectionId(1));
    vis.add_observer(ConnectionId(2));
    assert_eq!(ids(vis.new_observers()), vec![1, 2]);
    assert!(vis.existing_observers().is_empty());
    assert!(vis.has_observer(ConnectionId(1)));

    vis.update();
    assert!(vis.new_observers().is_empty());
    assert_eq!(ids(vis.existing_observers()), vec![1, 2]);

    vis.remove_observer(ConnectionId(1));
    assert_eq!(ids(vis.removed_observers()), vec![1]);
    assert_eq!(ids(vis.observers()), vec![2]);
    assert!(!vis.has_observer(ConnectionId(1)));
    assert_eq!(vis.all_observers().len(), 2);

    // removed this frame and added back: keeps observing
    vis.add_observer(ConnectionId(1));
    assert!(vis.removed_observers().is_empty());
    assert!(vis.has_observer(ConnectionId(1)));

    vis.remove_observer(ConnectionId(2));
    vis.update();
    assert_eq!(ids(vis.all_observers()), vec![1]);
}

#[test]
fn visibility_added_then_removed_is_forgotten() {
    let mut vis = NetworkVisibility::new();
    vis.add_observer(ConnectionId(5));
    vis.remove_observer(ConnectionId(5));
    assert!(vis.all_observers().is_empty());

    vis.add_observer(ConnectionId(6));
    vis.add_observer(ConnectionId(7));
    vis.update();
    vis.add_observer(ConnectionId(8));
    vis.remove_observers();
    assert_eq!(ids(vis.removed_observers()), vec![6, 7]);
    assert!(!vis.has_observer(ConnectionId(8)));
    vis.update();
    assert!(vis.all_observers().is_empty());
}

#[test]
fn visibility_assume_removed_marks_all() {
    let mut vis = NetworkVisibility::new();
    vis.add_observer(ConnectionId(3));
    vis.update();
    vis.assume_removed();
    assert_eq!(ids(vis.removed_observers()), vec![3]);
}

#[test]
fn spawn_decisions() {
    assert_eq!(spawn_decision(true, SceneRef::Missing, false, false, false), Some((SpawnKind::Named, 50)));
    assert_eq!(spawn_decision(true, SceneRef::Missing, true, true, true), Some((SpawnKind::Named, 60)));
    assert_eq!(spawn_decision(false, SceneRef::ByPath, false, false, true), Some((SpawnKind::AssetPath, 60)));
    assert_eq!(
        spawn_decision(false, SceneRef::Missing, false, true, false),
        Some((SpawnKind::Empty { in_world: true }, 50))
    );
    assert_eq!(
        spawn_decision(false, SceneRef::Missing, false, false, false),
        Some((SpawnKind::Empty { in_world: false }, 50))
    );
    assert_eq!(spawn_decision(false, SceneRef::Missing, true, true, false), None);
    assert_eq!(spawn_decision(false, SceneRef::Loading, false, true, false), None);
    assert_eq!(spawn_decision(true, SceneRef::Loading, false, true, false), None);
    assert_eq!(spawn_decision(false, SceneRef::Dynamic, false, true, false), None);
    assert_eq!(spawn_decision(true, SceneRef::ByPath, false, true, false), None);
    assert_eq!(spawn_decision(true, SceneRef::Dynamic, false, true, false), None);
}

#[test]
fn controlled_entities_spawn_first() {
    let mut controls = ClientControls::new();
    controls.give_control(7, Entity(3));
    assert_eq!(
        entity_spawn_decision(&controls, Entity(3), true, SceneRef::Missing, false, false),
        Some((SpawnKind::Named, 60))
    );
    assert_eq!(
        entity_spawn_decision(&controls, Entity(4), true, SceneRef::Missing, false, false),
        Some((SpawnKind::Named, 50))
    );
}

#[test]
fn despawns_go_to_connected_observers_only() {
    let removed = vec![ConnectionId(1), ConnectionId(2), ConnectionId(3)];
    let connected = vec![ConnectionId(3), ConnectionId(1)];
    assert_eq!(despawn_receivers(&removed, &connected), vec![ConnectionId(1), ConnectionId(3)]);
    assert!(despawn_receivers(&removed, &Vec::new()).is_empty());
    assert_eq!(DESPAWN_MESSAGE_PRIORITY, -10);
}
