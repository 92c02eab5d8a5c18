//! Which player controls which entity.
use std::collections::{HashMap, HashSet};
use vstd::prelude::*;
use crate::entity::Entity;

verus! {

broadcast use vstd::std_specs::hash::group_hash_axioms;

/// Tracks which connected client (by player uuid) controls which entity.
pub struct ClientControls {
    mapping: HashMap<u128, Entity>,
    reverse_mapping: HashMap<u64, u128>,
    changed: HashSet<u128>,
}

impl ClientControls {
    /// The entity each player controls.
    pub closed spec fn mapping_view(&self) -> Map<u128, Entity> {
        self.mapping@
    }

    /// The player controlling each entity (by entity number).
    pub closed spec fn reverse_view(&self) -> Map<u64, u128> {
        self.reverse_mapping@
    }

    /// The players whose control changed.
    pub closed spec fn changed_view(&self) -> Set<u128> {
        self.changed@
    }

    /// Nobody controls anything.
    pub fn new() -> (r: Self)
        ensures
            r.mapping_view() == Map::<u128, Entity>::empty(),
            r.reverse_view() == Map::<u64, u128>::empty(),
            r.changed_view() == Set::<u128>::empty(),
    {
        ClientControls { mapping: HashMap::new(), reverse_mapping: HashMap::new(), changed: HashSet::new() }
    }

    /// Gives player `id` control of `entity`, taking back the entity it controlled before.
    pub fn give_control(&mut self, id: u128, entity: Entity)
        ensures
            final(self).mapping_view() == old(self).mapping_view().insert(id, entity),
            final(self).reverse_view() == (if old(self).mapping_view().contains_key(id) {
                old(self).reverse_view().remove(old(self).mapping_view()[id].0)
            } else {
                old(self).reverse_view()
            }).insert(entity.0, id),
            final(self).changed_view() == old(self).changed_view().insert(id),
    {
        match self.mapping.remove(&id) {
            Some(previous) => {
                self.reverse_mapping.remove(&previous.0);
            },
            None => {},
        }
        self.mapping.insert(id, entity);
        self.reverse_mapping.insert(entity.0, id);
        self.changed.insert(id);
        assert(self.mapping_view() =~= old(self).mapping_view().insert(id, entity));
    }

    /// Whether player `id` controls `entity`.
    pub fn does_control(&self, id: u128, entity: Entity) -> (r: bool)
        ensures
            r == (self.mapping_view().contains_key(id) && self.mapping_view()[id] == entity),
    {
        match self.mapping.get(&id) {
            Some(e) => *e == entity,
            None => false,
        }
    }

    /// The entity player `id` controls.
    pub fn controlled_entity(&self, id: u128) -> (r: Option<Entity>)
        ensures
            r == (if self.mapping_view().contains_key(id) { Some(self.mapping_view()[id]) } else { None }),
    {
        match self.mapping.get(&id) {
            Some(e) => Some(*e),
            None => None,
        }
    }

    /// The player controlling `entity`.
    pub fn controlling_player(&self, entity: Entity) -> (r: Option<u128>)
        ensures
            r == (if self.reverse_view().contains_key(entity.0) {
                Some(self.reverse_view()[entity.0])
            } else {
                None
            }),
    {
        match self.reverse_mapping.get(&entity.0) {
            Some(id) => Some(*id),
            None => None,
        }
    }

    /// Whether the control of player `id` changed.
    pub fn has_changed(&self, id: u128) -> (r: bool)
        ensures
            r == self.changed_view().contains(id),
    {
        self.changed.contains(&id)
    }
}

/// After a player is given control of an entity, the player controls it and the
/// entity is controlled by the player.
pub proof fn lemma_give_control(before: ClientControls, after: ClientControls, id: u128, entity: Entity)
    requires
        after.mapping_view() == before.mapping_view().insert(id, entity),
        after.reverse_view() == (if before.mapping_view().contains_key(id) {
            before.reverse_view().remove(before.mapping_view()[id].0)
        } else {
            before.reverse_view()
        }).insert(entity.0, id),
    ensures
        after.mapping_view()[id] == entity,
        after.reverse_view()[entity.0] == id,
{
}

} // verus!
