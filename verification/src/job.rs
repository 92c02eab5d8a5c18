//! Jobs: which job each connected player picked, and where a job's players spawn.
use std::collections::HashMap;
use vstd::prelude::*;
use crate::maps::direction::UVec2;
use crate::maps::tilemap::TileMap;
use crate::networking::controls::ClientControls;
use crate::networking::players::{ConnectionId, Player, Players};

verus! {

broadcast use vstd::std_specs::hash::group_hash_axioms;

/// A job a player can take.
pub struct JobDefinition {
    pub id: String,
    pub name: String,
    pub description: String,
    pub clothing: Vec<String>,
}

/// Asks the server to select a job (by the asset path of its definition), or to
/// deselect with `None`.
pub struct SelectJobMessage {
    pub job: Option<String>,
}

/// The job each connection selected, by the asset path of its definition.
pub struct SelectedJobs {
    selected: HashMap<u64, String>,
}

/// The selections after handling `messages` in order: a message from an unknown
/// connection is passed over, one from a player who already controls a character
/// ends the handling, any other selects or deselects a job.
pub open spec fn after_selections(
    selected: Map<u64, String>,
    messages: Seq<(ConnectionId, SelectJobMessage)>,
    players: Map<u64, Player>,
    controls: Map<u128, crate::entity::Entity>,
) -> Map<u64, String>
    decreases messages.len(),
{
    if messages.len() == 0 {
        selected
    } else {
        let (connection, message) = messages[0];
        if !players.contains_key(connection.0) {
            after_selections(selected, messages.skip(1), players, controls)
        } else if controls.contains_key(players[connection.0].id) {
            selected
        } else {
            match message.job {
                Some(path) => after_selections(selected.insert(connection.0, path), messages.skip(1), players, controls),
                None => after_selections(selected.remove(connection.0), messages.skip(1), players, controls),
            }
        }
    }
}

impl SelectedJobs {
    /// The asset path of the job each connection selected.
    pub closed spec fn selected_view(&self) -> Map<u64, String> {
        self.selected@
    }

    /// No job selected.
    pub fn new() -> (r: Self)
        ensures
            r.selected_view() == Map::<u64, String>::empty(),
    {
        SelectedJobs { selected: HashMap::new() }
    }

    /// The asset path of the job `connection` selected.
    pub fn get(&self, connection: ConnectionId) -> (r: Option<&String>)
        ensures
            match r {
                Some(p) => self.selected_view().contains_key(connection.0) && self.selected_view()[connection.0] == *p,
                None => !self.selected_view().contains_key(connection.0),
            },
    {
        self.selected.get(&connection.0)
    }
}

/// Handles job selection messages in order. Only players who do not control a
/// character yet may select; the first message from one who does ends the handling.
pub fn handle_job_selection(
    messages: Vec<(ConnectionId, SelectJobMessage)>,
    players: &Players,
    controlled: &ClientControls,
    resource: &mut SelectedJobs,
)
    ensures
        final(resource).selected_view() == after_selections(
            old(resource).selected_view(),
            messages@,
            players.players_view(),
            controlled.mapping_view(),
        ),
{
    let ghost all = messages@;
    let ghost start = resource.selected_view();
    let mut i: usize = 0;
    assert(all.skip(0) =~= all);
    while i < messages.len()
        invariant
            all == messages@,
            start == old(resource).selected_view(),
            i <= messages.len(),
            after_selections(resource.selected_view(), all.skip(i as int), players.players_view(), controlled.mapping_view())
                == after_selections(start, all, players.players_view(), controlled.mapping_view()),
        decreases messages.len() - i,
    {
        let ghost rest = all.skip(i as int);
        assert(rest[0] == all[i as int]);
        assert(rest.skip(1) =~= all.skip(i + 1));
        let (connection, message) = &messages[i];
        let player = match players.get(*connection) {
            Some(p) => p,
            None => {
                i = i + 1;
                continue;
            },
        };
        if controlled.controlled_entity(player.id).is_some() {
            assert(rest[0].0 == *connection);
            assert(after_selections(resource.selected_view(), rest, players.players_view(), controlled.mapping_view())
                == resource.selected_view());
            return;
        }
        match &message.job {
            Some(path) => {
                resource.selected.insert(connection.0, path.clone());
            },
            None => {
                resource.selected.remove(&connection.0);
            },
        }
        i = i + 1;
    }
    assert(all.skip(messages.len() as int) =~= Seq::<(ConnectionId, SelectJobMessage)>::empty());
}

/// A message from a connection that is not a known player changes nothing, wherever it
/// stands: handling the messages with it gives what handling them without it gives.
pub proof fn lemma_unknown_connection_ignored(
    selected: Map<u64, String>,
    before: Seq<(ConnectionId, SelectJobMessage)>,
    unknown: (ConnectionId, SelectJobMessage),
    after: Seq<(ConnectionId, SelectJobMessage)>,
    players: Map<u64, Player>,
    controls: Map<u128, crate::entity::Entity>,
)
    requires
        !players.contains_key(unknown.0.0),
    ensures
        after_selections(selected, before + seq![unknown] + after, players, controls)
            == after_selections(selected, before + after, players, controls),
    decreases before.len(),
{
    let with = before + seq![unknown] + after;
    let without = before + after;
    if before.len() == 0 {
        assert(with.skip(1) =~= after);
        assert(without =~= after);
    } else {
        let (connection, message) = before[0];
        assert(with[0] == before[0]);
        assert(without[0] == before[0]);
        assert(with.skip(1) =~= before.skip(1) + seq![unknown] + after);
        assert(without.skip(1) =~= before.skip(1) + after);
        if !players.contains_key(connection.0) {
            lemma_unknown_connection_ignored(selected, before.skip(1), unknown, after, players, controls);
        } else if controls.contains_key(players[connection.0].id) {
        } else {
            match message.job {
                Some(path) => lemma_unknown_connection_ignored(
                    selected.insert(connection.0, path),
                    before.skip(1),
                    unknown,
                    after,
                    players,
                    controls,
                ),
                None => lemma_unknown_connection_ignored(
                    selected.remove(connection.0),
                    before.skip(1),
                    unknown,
                    after,
                    players,
                    controls,
                ),
            }
        }
    }
}

/// The last selection of a player who controls no character is the one recorded, when
/// no later message comes from a player who does: a later message from another player
/// leaves it alone.
pub proof fn lemma_selection_recorded(
    selected: Map<u64, String>,
    connection: ConnectionId,
    path: String,
    after: Seq<(ConnectionId, SelectJobMessage)>,
    players: Map<u64, Player>,
    controls: Map<u128, crate::entity::Entity>,
)
    requires
        players.contains_key(connection.0),
        !controls.contains_key(players[connection.0].id),
        forall|i: int| 0 <= i < after.len() ==> (#[trigger] after[i]).0.0 != connection.0,
        forall|i: int|
            0 <= i < after.len() && players.contains_key((#[trigger] after[i]).0.0) ==> !controls.contains_key(
                players[after[i].0.0].id,
            ),
    ensures
        ({
            let r = after_selections(
                selected,
                seq![(connection, SelectJobMessage { job: Some(path) })] + after,
                players,
                controls,
            );
            r.contains_key(connection.0) && r[connection.0] == path
        }),
{
    let msgs = seq![(connection, SelectJobMessage { job: Some(path) })] + after;
    assert(msgs[0] == (connection, SelectJobMessage { job: Some(path) }));
    assert(msgs.skip(1) =~= after);
    lemma_others_keep_entry(selected.insert(connection.0, path), connection, after, players, controls);
}

/// Messages that do not come from `connection`, and that end nothing, leave its entry
/// as it is.
proof fn lemma_others_keep_entry(
    selected: Map<u64, String>,
    connection: ConnectionId,
    msgs: Seq<(ConnectionId, SelectJobMessage)>,
    players: Map<u64, Player>,
    controls: Map<u128, crate::entity::Entity>,
)
    requires
        forall|i: int| 0 <= i < msgs.len() ==> (#[trigger] msgs[i]).0.0 != connection.0,
        forall|i: int|
            0 <= i < msgs.len() && players.contains_key((#[trigger] msgs[i]).0.0) ==> !controls.contains_key(
                players[msgs[i].0.0].id,
            ),
    ensures
        after_selections(selected, msgs, players, controls).contains_key(connection.0)
            == selected.contains_key(connection.0),
        selected.contains_key(connection.0) ==> after_selections(selected, msgs, players, controls)[connection.0]
            == selected[connection.0],
    decreases msgs.len(),
{
    if msgs.len() > 0 {
        let (c, message) = msgs[0];
        let rest = msgs.skip(1);
        assert forall|i: int| 0 <= i < rest.len() implies (#[trigger] rest[i]).0.0 != connection.0 by {
            assert(rest[i] == msgs[i + 1]);
        }
        assert forall|i: int|
            0 <= i < rest.len() && players.contains_key((#[trigger] rest[i]).0.0) implies !controls.contains_key(
                players[rest[i].0.0].id,
            ) by {
            assert(rest[i] == msgs[i + 1]);
        }
        assert(msgs[0].0.0 != connection.0);
        if !players.contains_key(c.0) {
            lemma_others_keep_entry(selected, connection, rest, players, controls);
        } else {
            assert(!controls.contains_key(players[c.0].id));
            match message.job {
                Some(p) => lemma_others_keep_entry(selected.insert(c.0, p), connection, rest, players, controls),
                None => lemma_others_keep_entry(selected.remove(c.0), connection, rest, players, controls),
            }
        }
    }
}

/// The entry of `s` named `id` comes first at `i`.
pub open spec fn first_named(s: Seq<(String, Vec<UVec2>)>, id: Seq<char>, i: int) -> bool {
    &&& 0 <= i < s.len()
    &&& s[i].0@ == id
    &&& forall|j: int| 0 <= j < i ==> (#[trigger] s[j]).0@ != id
}

/// Some entry of `s` is named `id`.
pub open spec fn named(s: Seq<(String, Vec<UVec2>)>, id: Seq<char>) -> bool {
    exists|i: int| 0 <= i < s.len() && (#[trigger] s[i]).0@ == id
}

/// The tile where players of `job` spawn: the first spawn position recorded for the
/// job on the map, or the origin when the map records none. A recorded list must not
/// be empty.
pub fn spawn_tile(map: &TileMap, job: &JobDefinition) -> (r: UVec2)
    requires
        forall|i: int| first_named(map.spawns_view(), job.id@, i) ==> map.spawns_view()[i].1@.len() > 0,
    ensures
        ({
            let s = map.spawns_view();
            ||| exists|i: int| first_named(s, job.id@, i) && r == s[i].1@[0]
            ||| !named(s, job.id@) && r == (UVec2 { x: 0, y: 0 })
        }),
{
    let spawns = map.spawns();
    let mut i: usize = 0;
    while i < spawns.len()
        invariant
            spawns@ == map.spawns_view(),
            forall|k: int| first_named(map.spawns_view(), job.id@, k) ==> map.spawns_view()[k].1@.len() > 0,
            i <= spawns.len(),
            forall|j: int| 0 <= j < i ==> (#[trigger] spawns@[j]).0@ != job.id@,
        decreases spawns.len() - i,
    {
        if spawns[i].0 == job.id {
            assert(first_named(map.spawns_view(), job.id@, i as int));
            return spawns[i].1[0];
        }
        i = i + 1;
    }
    UVec2 { x: 0, y: 0 }
}

} // verus!
