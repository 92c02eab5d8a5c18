use station::entity::Entity;
use station::job::{handle_job_selection, spawn_tile, JobDefinition, SelectJobMessage, SelectedJobs};
use station::maps::direction::UVec2;
use station::maps::tilemap::TileMap;
use station::networking::controls::ClientControls;
use station::networking::players::{ConnectionId, Players};
use station::networking::role::{ClientState, NetworkManager, NetworkRole};

fn job(id: &str) -> JobDefinition {
    JobDefinition {
        id: id.to_owned(),
        name: id.to_owned(),
        description: String::new(),
        clothing: vec![],
    }
}

fn select(c: u64, job: Option<&str>) -> (ConnectionId, SelectJobMessage) {
    (ConnectionId(c), SelectJobMessage { job: job.map(|j| j.to_owned()) })
}

#[test]
fn roles() {
    let server = NetworkManager { role: NetworkRole::Server };
    assert!(server.is_server());
    assert!(!server.is_client());
    let client = NetworkManager { role: NetworkRole::Client };
    assert!(client.is_client());
    assert_eq!(ClientState::default(), ClientState::Initial);
}

#[test]
fn jobs_are_selected_and_deselected() {
    let mut players = Players::new();
    players.add(ConnectionId(1), 10, "a".to_owned());
    players.add(ConnectionId(2), 20, "b".to_owned());
    let controls = ClientControls::new();
    let mut selected = SelectedJobs::new();

    handle_job_selection(
        vec![select(1, Some("jobs/cook.job.ron")), select(2, Some("jobs/guard.job.ron")), select(3, Some("x"))],
        &players,
        &controls,
        &mut selected,
    );
    assert_eq!(selected.get(ConnectionId(1)).map(|s| s.as_str()), Some("jobs/cook.job.ron"));
    assert_eq!(selected.get(ConnectionId(2)).map(|s| s.as_str()), Some("jobs/guard.job.ron"));
    assert_eq!(selected.get(ConnectionId(3)), None);

    handle_job_selection(vec![select(1, None)], &players, &controls, &mut selected);
    assert_eq!(selected.get(ConnectionId(1)), None);
}

#[test]
fn controlling_players_stop_the_handling() {
    let mut players = Players::new();
    players.add(ConnectionId(1), 10, "a".to_owned());
    players.add(ConnectionId(2), 20, "b".to_owned());
    let mut controls = ClientControls::new();
    controls.give_control(10, Entity(5));
    let mut selected = SelectedJobs::new();

    handle_job_selection(
        vec![select(2, Some("first")), select(1, Some("ignored")), select(2, Some("never"))],
        &players,
        &controls,
        &mut selected,
    );
    assert_eq!(selected.get(ConnectionId(1)), None);
    assert_eq!(selected.get(ConnectionId(2)).map(|s| s.as_str()), Some("first"));
}

#[test]
fn spawn_tile_is_first_recorded_position() {
    let mut map = TileMap::new(UVec2::new(1, 1));
    map.job_spawn_positions.push(("cook".to_owned(), vec![UVec2::new(3, 4), UVec2::new(5, 6)]));
    assert_eq!(spawn_tile(&map, &job("cook")), UVec2::new(3, 4));
    assert_eq!(spawn_tile(&map, &job("guard")), UVec2::new(0, 0));
}
