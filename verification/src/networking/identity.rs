//! Network identities: numbers that stand for entities over the network, as entity ids
//! are an implementation detail of each peer.
use std::collections::HashMap;
use vstd::prelude::*;
use crate::entity::Entity;

verus! {

broadcast use vstd::std_specs::hash::group_hash_axioms;

/// The network-wide number of an entity.
#[derive(Clone, Copy, PartialEq, Eq, Structural, Debug, Hash)]
pub struct NetworkIdentity(pub u32);

impl NetworkIdentity {
    /// The identity after this one. There must be one.
    pub fn next(&self) -> (r: Self)
        requires
            self.0 < u32::MAX,
        ensures
            r.0 == self.0 + 1,
    {
        NetworkIdentity(self.0 + 1)
    }
}

/// A lookup to match network identities with entities, both ways.
pub struct NetworkIdentities {
    last_id: u32,
    identities: HashMap<u32, Entity>,
    entities: HashMap<u64, NetworkIdentity>,
}

impl NetworkIdentities {
    /// The entity of each identity number.
    pub closed spec fn identities_view(&self) -> Map<u32, Entity> {
        self.identities@
    }

    /// The identity of each entity number.
    pub closed spec fn entities_view(&self) -> Map<u64, NetworkIdentity> {
        self.entities@
    }

    /// The last identity number handed out.
    pub closed spec fn last_id_view(&self) -> u32 {
        self.last_id
    }

    /// No identities yet.
    pub fn new() -> (r: Self)
        ensures
            r.identities_view() == Map::<u32, Entity>::empty(),
            r.entities_view() == Map::<u64, NetworkIdentity>::empty(),
            r.last_id_view() == 0,
    {
        NetworkIdentities { last_id: 0, identities: HashMap::new(), entities: HashMap::new() }
    }

    /// Records that `entity` has `identity`, both ways.
    pub fn set_identity(&mut self, entity: Entity, identity: NetworkIdentity)
        ensures
            final(self).identities_view() == old(self).identities_view().insert(identity.0, entity),
            final(self).entities_view() == old(self).entities_view().insert(entity.0, identity),
            final(self).last_id_view() == old(self).last_id_view(),
    {
        self.identities.insert(identity.0, entity);
        self.entities.insert(entity.0, identity);
    }

    /// Gives `entity` the next identity number. There must be one left.
    pub fn assign_next(&mut self, entity: Entity) -> (r: NetworkIdentity)
        requires
            old(self).last_id_view() < u32::MAX,
        ensures
            r.0 == old(self).last_id_view() + 1,
            final(self).last_id_view() == r.0,
            final(self).identities_view() == old(self).identities_view().insert(r.0, entity),
            final(self).entities_view() == old(self).entities_view().insert(entity.0, r),
    {
        let id = NetworkIdentity(self.last_id + 1);
        self.last_id = id.0;
        self.set_identity(entity, id);
        id
    }

    /// Forgets an entity and its identity.
    pub fn remove_entity(&mut self, entity: Entity)
        ensures
            final(self).entities_view() == old(self).entities_view().remove(entity.0),
            final(self).identities_view() == (if old(self).entities_view().contains_key(entity.0) {
                old(self).identities_view().remove(old(self).entities_view()[entity.0].0)
            } else {
                old(self).identities_view()
            }),
            final(self).last_id_view() == old(self).last_id_view(),
    {
        match self.entities.remove(&entity.0) {
            Some(identity) => {
                self.identities.remove(&identity.0);
            },
            None => {},
        }
    }

    /// The entity with the given identity.
    pub fn get_entity(&self, identity: NetworkIdentity) -> (r: Option<Entity>)
        ensures
            r == (if self.identities_view().contains_key(identity.0) {
                Some(self.identities_view()[identity.0])
            } else {
                None
            }),
    {
        match self.identities.get(&identity.0) {
            Some(e) => Some(*e),
            None => None,
        }
    }

    /// The identity of the given entity.
    pub fn get_identity(&self, entity: Entity) -> (r: Option<NetworkIdentity>)
        ensures
            r == (if self.entities_view().contains_key(entity.0) {
                Some(self.entities_view()[entity.0])
            } else {
                None
            }),
    {
        match self.entities.get(&entity.0) {
            Some(i) => Some(*i),
            None => None,
        }
    }
}

/// After an identity is set, each side leads to the other.
pub proof fn lemma_set_identity_round_trip(before: NetworkIdentities, after: NetworkIdentities, entity: Entity, identity: NetworkIdentity)
    requires
        after.identities_view() == before.identities_view().insert(identity.0, entity),
        after.entities_view() == before.entities_view().insert(entity.0, identity),
    ensures
        after.identities_view().contains_key(identity.0) && after.identities_view()[identity.0] == entity,
        after.entities_view().contains_key(entity.0) && after.entities_view()[entity.0] == identity,
{
}

} // verus!
