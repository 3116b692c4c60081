use among_us_server::effects::Effect;
use among_us_server::game::{choose_drawn, get_imposter_count, Game, GameFault, GameSettings, VOTING_TIME_SECS};
use among_us_server::incoming_websocket_messages::{
    ChooseColor, IncomingWebsocketMessage, KillPlayer, ReportBody, Vote,
};
use among_us_server::internal_messages::{
    EndVoting, GetNextUUID, GetPlayerColor, HasGameStarted, IncomingMessageInternal, PlayerDisconnected,
    PlayerExists, RegisterPlayer, RegisterPlayerWebsocket, ResetGame, StartGame, StartMeeting,
};
use among_us_server::outgoing_websocket_messages::{
    BodyReported, EmergencyMeetingCalled, GameState, GameStateEnum, OutgoingWebsocketMessage,
    PlayerConnectionStatus, PlayerDied, PlayerStatus, RoleAssignment, SetRole, VotingResults, Winner,
};
use among_us_server::player::{Player, PlayerSerializable, Role};
use rand::Rng;
use rand::SeedableRng;
use rand_pcg::Pcg32;
use std::time::Duration;
use uuid::Uuid;

fn new_game(cooldown_secs: u64) -> Game {
    Game::new(GameSettings { kill_cooldown: Duration::from_secs(cooldown_secs) }, 0)
}

fn join(game: &mut Game, name: &str, out: &mut Vec<Effect>) -> u128 {
    let id = game.handle_get_next_uuid(GetNextUUID {});
    game.handle_register_player(RegisterPlayer { id, name: name.to_string() });
    game.handle_register_player_websocket(RegisterPlayerWebsocket { id }, out).unwrap();
    id
}

fn sent_to(out: &[Effect], id: u128) -> Vec<OutgoingWebsocketMessage> {
    out.iter()
        .filter_map(|e| match e {
            Effect::Send { to, msg } if *to == id => Some(msg.clone()),
            _ => None,
        })
        .collect()
}

fn role_of(out: &[Effect], id: u128) -> RoleAssignment {
    sent_to(out, id)
        .iter()
        .find_map(|m| match m {
            OutgoingWebsocketMessage::PlayerRole(SetRole { role, id: who }) if *who == id => Some(*role),
            _ => None,
        })
        .unwrap()
}

fn incoming(game: &mut Game, initiator: u128, msg: IncomingWebsocketMessage, out: &mut Vec<Effect>) -> Result<(), GameFault> {
    game.handle_incoming_message(IncomingMessageInternal { initiator, incoming: msg }, out)
}

fn kill(target: u128) -> IncomingWebsocketMessage {
    IncomingWebsocketMessage::KillPlayer(KillPlayer { target })
}

fn invalid(text: &str) -> OutgoingWebsocketMessage {
    OutgoingWebsocketMessage::InvalidAction(text.to_string())
}

fn in_game() -> OutgoingWebsocketMessage {
    OutgoingWebsocketMessage::GameState(GameState { state: GameStateEnum::InGame })
}

/// Joins `names`, starts the game, and splits the players into imposters and crewmates.
fn started(names: &[&str], out: &mut Vec<Effect>, game: &mut Game) -> (Vec<u128>, Vec<u128>, Vec<u128>) {
    let ids: Vec<u128> = names.iter().map(|n| join(game, n, out)).collect();
    game.handle_start_game(StartGame {}, out).unwrap();
    let imposters = ids.iter().copied().filter(|id| role_of(out, *id) == RoleAssignment::Imposter).collect();
    let crewmates = ids.iter().copied().filter(|id| role_of(out, *id) == RoleAssignment::Crewmate).collect();
    (imposters, crewmates, ids)
}

#[test]
fn joining_player_hears_lobby_and_own_arrival() {
    let mut game = new_game(0);
    let mut out = Vec::new();
    let chris = join(&mut game, "Chris", &mut out);
    let expected_status = OutgoingWebsocketMessage::PlayerStatus(PlayerStatus {
        player: PlayerSerializable { username: "Chris".to_string(), id: chris, color: "#FFFFFF".to_string() },
        status: PlayerConnectionStatus::New,
    });
    assert_eq!(
        sent_to(&out, chris),
        vec![expected_status, OutgoingWebsocketMessage::GameState(GameState { state: GameStateEnum::Lobby })]
    );
    assert!(game.handle_player_exists(PlayerExists { id: chris }));
}

#[test]
fn second_player_learns_about_the_first() {
    let mut game = new_game(0);
    let mut out = Vec::new();
    let chris = join(&mut game, "Chris", &mut out);
    let before = out.len();
    let kate = join(&mut game, "Kate", &mut out);
    let kate_sees = sent_to(&out[before..], kate);
    assert_eq!(kate_sees.len(), 3);
    assert_eq!(
        kate_sees[0],
        OutgoingWebsocketMessage::PlayerStatus(PlayerStatus {
            player: PlayerSerializable { username: "Kate".to_string(), id: kate, color: "#FFFFFF".to_string() },
            status: PlayerConnectionStatus::New,
        })
    );
    assert_eq!(
        kate_sees[1],
        OutgoingWebsocketMessage::PlayerStatus(PlayerStatus {
            player: PlayerSerializable { username: "Chris".to_string(), id: chris, color: "#FFFFFF".to_string() },
            status: PlayerConnectionStatus::Existing,
        })
    );
    let chris_sees = sent_to(&out[before..], chris);
    assert_eq!(chris_sees.len(), 1);
    assert_eq!(chris_sees[0], kate_sees[0]);
    assert_eq!(kate_sees[2], OutgoingWebsocketMessage::GameState(GameState { state: GameStateEnum::Lobby }));
}

#[test]
fn identifiers_come_from_the_seeded_generator() {
    let mut game = new_game(0);
    let first = game.handle_get_next_uuid(GetNextUUID {});
    let mut rng = Pcg32::seed_from_u64(0);
    let expected = Uuid::from_bytes(rng.gen::<[u8; 16]>()).as_u128();
    assert_eq!(first, expected);
    let second = game.handle_get_next_uuid(GetNextUUID {});
    assert_eq!(second, Uuid::from_bytes(rng.gen::<[u8; 16]>()).as_u128());
    assert_ne!(first, second);
}

#[test]
fn lone_player_becomes_imposter() {
    let mut game = new_game(0);
    let mut out = Vec::new();
    let chris = join(&mut game, "Chris", &mut out);
    let before = out.len();
    game.handle_start_game(StartGame {}, &mut out).unwrap();
    assert_eq!(
        sent_to(&out[before..], chris),
        vec![
            OutgoingWebsocketMessage::PlayerRole(SetRole { role: RoleAssignment::Imposter, id: chris }),
            in_game(),
        ]
    );
    assert!(game.handle_has_game_started(HasGameStarted {}));
    assert_eq!(game.imposters_alive(), 1);
    assert_eq!(game.crewmates_alive(), 0);
    assert_eq!(game.has_winner(), Some(Winner::Imposters));
}

#[test]
fn two_players_get_one_role_each() {
    let mut game = new_game(0);
    let mut out = Vec::new();
    let (imposters, crewmates, _) = started(&["Chris", "Kate"], &mut out, &mut game);
    assert_eq!(imposters.len(), 1);
    assert_eq!(crewmates.len(), 1);
    assert_eq!(game.imposters_alive(), 1);
    assert_eq!(game.crewmates_alive(), 1);
    assert_eq!(game.alive_players(), 2);
    assert_eq!(game.has_winner(), None);
    assert_eq!(game.get_imposters().len(), 1);
    assert_eq!(game.get_imposters()[0].id, imposters[0]);
}

#[test]
fn one_player_each_role_with_seed_zero() {
    let mut game = new_game(0);
    let mut out = Vec::new();
    let (_, _, ids) = started(&["Chris", "Kate"], &mut out, &mut game);
    assert_eq!(role_of(&out, ids[0]), RoleAssignment::Crewmate);
    assert_eq!(role_of(&out, ids[1]), RoleAssignment::Imposter);
}

#[test]
fn imposter_counts_follow_the_player_count() {
    assert_eq!(get_imposter_count(0), 1);
    assert_eq!(get_imposter_count(1), 1);
    assert_eq!(get_imposter_count(4), 1);
    assert_eq!(get_imposter_count(5), 2);
    assert_eq!(get_imposter_count(7), 2);
    assert_eq!(get_imposter_count(8), 3);
    assert_eq!(get_imposter_count(100), 3);
}

#[test]
fn five_players_get_two_imposters() {
    let mut game = new_game(0);
    let mut out = Vec::new();
    let (imposters, crewmates, _) = started(&["A", "B", "C", "D", "E"], &mut out, &mut game);
    assert_eq!(imposters.len(), 2);
    assert_eq!(crewmates.len(), 3);
}

#[test]
fn starting_without_players_fails() {
    let mut game = new_game(0);
    let mut out = Vec::new();
    assert_eq!(game.handle_start_game(StartGame {}, &mut out), Err(GameFault::NoPlayers));
    assert!(out.is_empty());
    assert!(!game.handle_has_game_started(HasGameStarted {}));
}

#[test]
fn disconnect_is_broadcast_and_closes_the_socket() {
    let mut game = new_game(0);
    let mut out = Vec::new();
    let chris = join(&mut game, "Chris", &mut out);
    let kate = join(&mut game, "Kate", &mut out);
    let before = out.len();
    game.handle_player_disconnected(PlayerDisconnected { id: kate }, &mut out);
    let kate_gone = OutgoingWebsocketMessage::PlayerStatus(PlayerStatus {
        player: PlayerSerializable::generate_for_user(&Player::new("Kate", kate), &kate),
        status: PlayerConnectionStatus::Disconnected,
    });
    assert_eq!(out[before], Effect::CloseWebsocket { player: kate });
    assert_eq!(sent_to(&out[before..], chris), vec![kate_gone]);
    assert!(sent_to(&out[before..], kate).is_empty());
}

#[test]
fn reconnecting_player_is_announced_as_reconnected() {
    let mut game = new_game(0);
    let mut out = Vec::new();
    let chris = join(&mut game, "Chris", &mut out);
    game.handle_player_disconnected(PlayerDisconnected { id: chris }, &mut out);
    let before = out.len();
    game.handle_register_player_websocket(RegisterPlayerWebsocket { id: chris }, &mut out).unwrap();
    let seen = sent_to(&out[before..], chris);
    assert_eq!(
        seen.first().unwrap(),
        &OutgoingWebsocketMessage::PlayerStatus(PlayerStatus {
            player: PlayerSerializable { username: "Chris".to_string(), id: chris, color: "#FFFFFF".to_string() },
            status: PlayerConnectionStatus::Reconnected,
        })
    );
}

#[test]
fn unknown_websocket_registration_fails() {
    let mut game = new_game(0);
    let mut out = Vec::new();
    assert_eq!(
        game.handle_register_player_websocket(RegisterPlayerWebsocket { id: 42 }, &mut out),
        Err(GameFault::UnknownPlayer(42))
    );
    assert!(out.is_empty());
    game.handle_player_disconnected(PlayerDisconnected { id: 42 }, &mut out);
    assert!(out.is_empty());
}

#[test]
fn imposter_kill_ends_a_two_player_game() {
    let mut game = new_game(0);
    let mut out = Vec::new();
    let (imposters, crewmates, _) = started(&["Chris", "Kate"], &mut out, &mut game);
    let (imposter, crewmate) = (imposters[0], crewmates[0]);
    let before = out.len();
    incoming(&mut game, imposter, kill(crewmate), &mut out).unwrap();
    assert_eq!(
        sent_to(&out[before..], imposter),
        vec![
            OutgoingWebsocketMessage::SuccessfulKill(crewmate),
            OutgoingWebsocketMessage::GameOver(Winner::Imposters),
        ]
    );
    assert_eq!(
        sent_to(&out[before..], crewmate),
        vec![
            OutgoingWebsocketMessage::PlayerDied(PlayerDied { killer: imposter }),
            OutgoingWebsocketMessage::GameOver(Winner::Imposters),
        ]
    );
    assert_eq!(game.alive_players(), 1);
    assert_eq!(game.has_winner(), Some(Winner::Imposters));
}

#[test]
fn killed_body_is_reported_and_a_meeting_opens() {
    let mut game = new_game(0);
    let mut out = Vec::new();
    let (imposters, crewmates, _) = started(&["Chris", "Kate", "Ski"], &mut out, &mut game);
    let (imposter, victim, witness) = (imposters[0], crewmates[0], crewmates[1]);
    incoming(&mut game, imposter, kill(victim), &mut out).unwrap();
    let before = out.len();
    incoming(&mut game, witness, IncomingWebsocketMessage::ReportBody(ReportBody { corpse: victim }), &mut out)
        .unwrap();
    let reported = OutgoingWebsocketMessage::BodyReported(BodyReported { corpse: victim, initiator: witness });
    assert_eq!(sent_to(&out[before..], witness), vec![reported.clone()]);
    assert_eq!(sent_to(&out[before..], imposter), vec![reported]);
    assert_eq!(out.last().unwrap(), &Effect::EndVotingAfter { secs: VOTING_TIME_SECS });
    assert_eq!(VOTING_TIME_SECS, 60);
}

#[test]
fn reporting_a_living_player_is_refused() {
    let mut game = new_game(0);
    let mut out = Vec::new();
    let (imposters, crewmates, _) = started(&["Chris", "Kate", "Ski"], &mut out, &mut game);
    let before = out.len();
    incoming(
        &mut game,
        crewmates[0],
        IncomingWebsocketMessage::ReportBody(ReportBody { corpse: imposters[0] }),
        &mut out,
    )
    .unwrap();
    assert_eq!(
        out[before..].to_vec(),
        vec![Effect::Send { to: crewmates[0], msg: invalid("You cannot report this body, they are alive!") }]
    );
    assert_eq!(
        incoming(&mut game, crewmates[0], IncomingWebsocketMessage::ReportBody(ReportBody { corpse: 7 }), &mut out),
        Err(GameFault::UnknownPlayer(7))
    );
}

#[test]
fn crewmate_cannot_kill() {
    let mut game = new_game(0);
    let mut out = Vec::new();
    let (imposters, crewmates, _) = started(&["Chris", "Kate", "Ski"], &mut out, &mut game);
    let before = out.len();
    incoming(&mut game, crewmates[0], kill(imposters[0]), &mut out).unwrap();
    assert_eq!(
        sent_to(&out[before..], crewmates[0]),
        vec![invalid("Good try, but you can only kill people if you are an imposter!"), in_game()]
    );
    assert_eq!(game.alive_players(), 3);
}

#[test]
fn dead_players_cannot_be_killed_again() {
    let mut game = new_game(0);
    let mut out = Vec::new();
    let names = ["Chris", "Kate", "Ski"];
    let (imposters, crewmates, ids) = started(&names, &mut out, &mut game);
    let victim = crewmates[0];
    let victim_name = names[ids.iter().position(|id| *id == victim).unwrap()];
    incoming(&mut game, imposters[0], kill(victim), &mut out).unwrap();
    let before = out.len();
    incoming(&mut game, imposters[0], kill(victim), &mut out).unwrap();
    assert_eq!(
        sent_to(&out[before..], imposters[0]),
        vec![invalid(&format!("You cannot kill {} since they are already dead", victim_name)), in_game()]
    );
    assert_eq!(game.alive_players(), 2);
}

#[test]
fn imposters_cannot_kill_each_other() {
    let mut game = new_game(0);
    let mut out = Vec::new();
    let (imposters, _, _) = started(&["A", "B", "C", "D", "E"], &mut out, &mut game);
    let before = out.len();
    incoming(&mut game, imposters[0], kill(imposters[1]), &mut out).unwrap();
    assert_eq!(
        sent_to(&out[before..], imposters[0]),
        vec![invalid("You cannot kill a fellow imposter, silly"), in_game()]
    );
    assert_eq!(game.imposters_alive(), 2);
}

#[test]
fn kill_during_cooldown_is_refused() {
    let mut game = new_game(1000);
    let mut out = Vec::new();
    let (imposters, crewmates, _) = started(&["Chris", "Kate"], &mut out, &mut game);
    let before = out.len();
    incoming(&mut game, imposters[0], kill(crewmates[0]), &mut out).unwrap();
    let seen = sent_to(&out[before..], imposters[0]);
    match &seen[0] {
        OutgoingWebsocketMessage::InvalidAction(text) => {
            assert!(text.starts_with("You are not off kill cooldown yet. Try again in "))
        },
        other => panic!("unexpected {:?}", other),
    }
    assert_eq!(game.crewmates_alive(), 1);
}

#[test]
fn kill_check_decides_from_the_given_times() {
    let mut game = new_game(0);
    let mut out = Vec::new();
    let (imposters, crewmates, _) = started(&["Chris", "Kate"], &mut out, &mut game);
    let (imposter, crewmate) = (imposters[0], crewmates[0]);
    assert_eq!(game.kill_check(imposter, crewmate, 11, 10), Ok(None));
    assert_eq!(
        game.kill_check(imposter, crewmate, 10, 10),
        Ok(Some(format!("You are not off kill cooldown yet. Try again in {:#?}", Duration::new(0, 0))))
    );
    assert_eq!(
        game.kill_check(imposter, crewmate, 1, 2_500_000_001),
        Ok(Some(format!("You are not off kill cooldown yet. Try again in {:#?}", Duration::new(2, 500_000_000))))
    );
    assert_eq!(
        game.kill_check(crewmate, imposter, 11, 10),
        Ok(Some("Good try, but you can only kill people if you are an imposter!".to_string()))
    );
    assert_eq!(game.kill_check(99, crewmate, 11, 10), Err(GameFault::UnknownPlayer(99)));
    assert_eq!(game.kill_check(imposter, 99, 11, 10), Err(GameFault::UnknownPlayer(99)));
    assert_eq!(game.validate_kill_can_happen(imposter, 99), Err(GameFault::UnknownPlayer(99)));
}

#[test]
fn kill_before_roles_are_dealt_fails() {
    let mut game = new_game(0);
    let mut out = Vec::new();
    let chris = join(&mut game, "Chris", &mut out);
    let kate = join(&mut game, "Kate", &mut out);
    let before = out.len();
    assert!(matches!(incoming(&mut game, chris, kill(kate), &mut out), Err(GameFault::RoleNotAssigned(_))));
    assert_eq!(out.len(), before);
    assert_eq!(game.kill_check(chris, kate, 11, 10), Err(GameFault::RoleNotAssigned(chris)));
}

#[test]
fn voting_out_the_imposter_ends_the_game() {
    let mut game = new_game(0);
    let mut out = Vec::new();
    let (imposters, crewmates, _) = started(&["Chris", "Kate"], &mut out, &mut game);
    let (imposter, crewmate) = (imposters[0], crewmates[0]);
    game.handle_start_meeting(StartMeeting {}, &mut out);
    assert_eq!(out.last().unwrap(), &Effect::EndVotingAfter { secs: 60 });
    let vote = IncomingWebsocketMessage::Vote(Vote { target: Some(imposter) });
    let before = out.len();
    incoming(&mut game, crewmate, vote.clone(), &mut out).unwrap();
    assert_eq!(out.len(), before);
    incoming(&mut game, imposter, vote, &mut out).unwrap();
    assert_eq!(
        sent_to(&out[before..], imposter),
        vec![
            OutgoingWebsocketMessage::VotingResults(VotingResults { ejected_player: Some(imposter) }),
            OutgoingWebsocketMessage::GameOver(Winner::Crewmates),
        ]
    );
    assert_eq!(game.imposters_alive(), 0);
    assert_eq!(game.has_winner(), Some(Winner::Crewmates));
}

#[test]
fn meeting_without_majority_ejects_nobody() {
    let mut game = new_game(0);
    let mut out = Vec::new();
    let (imposters, crewmates, _) = started(&["Chris", "Kate", "Ski"], &mut out, &mut game);
    game.handle_start_meeting(StartMeeting {}, &mut out);
    incoming(&mut game, crewmates[0], IncomingWebsocketMessage::Vote(Vote { target: Some(imposters[0]) }), &mut out)
        .unwrap();
    let before = out.len();
    game.handle_end_voting(EndVoting {}, &mut out).unwrap();
    assert_eq!(
        sent_to(&out[before..], crewmates[1]),
        vec![OutgoingWebsocketMessage::VotingResults(VotingResults { ejected_player: None }), in_game()]
    );
    assert_eq!(game.alive_players(), 3);
    let after = out.len();
    game.handle_end_voting(EndVoting {}, &mut out).unwrap();
    incoming(&mut game, crewmates[0], IncomingWebsocketMessage::Vote(Vote { target: None }), &mut out).unwrap();
    assert_eq!(out.len(), after);
}

#[test]
fn emergency_meeting_is_announced() {
    let mut game = new_game(0);
    let mut out = Vec::new();
    let (_, crewmates, _) = started(&["Chris", "Kate", "Ski"], &mut out, &mut game);
    let before = out.len();
    incoming(&mut game, crewmates[1], IncomingWebsocketMessage::CallEmergencyMeeting, &mut out).unwrap();
    let called = OutgoingWebsocketMessage::EmergencyMeetingCalled(EmergencyMeetingCalled { initiator: crewmates[1] });
    assert_eq!(sent_to(&out[before..], crewmates[0]), vec![called]);
    assert_eq!(out.last().unwrap(), &Effect::EndVotingAfter { secs: 60 });
}

#[test]
fn meeting_ending_in_the_lobby_fails_without_roles() {
    let mut game = new_game(0);
    let mut out = Vec::new();
    let chris = join(&mut game, "Chris", &mut out);
    game.handle_start_meeting(StartMeeting {}, &mut out);
    let before = out.len();
    assert_eq!(
        incoming(&mut game, chris, IncomingWebsocketMessage::Vote(Vote { target: Some(chris) }), &mut out),
        Err(GameFault::RoleNotAssigned(chris))
    );
    assert_eq!(out.len(), before);
}

#[test]
fn player_changes_color_scenario() {
    let mut game = new_game(0);
    let mut out = Vec::new();
    let chris = join(&mut game, "Chris", &mut out);
    assert_eq!(game.handle_get_player_color(GetPlayerColor { id: chris }), Ok("#FFFFFF".to_string()));
    let color = "#ABABAB".to_string();
    let before = out.len();
    incoming(&mut game, chris, IncomingWebsocketMessage::ChooseColor(ChooseColor { color: color.clone() }), &mut out)
        .unwrap();
    assert_eq!(game.handle_get_player_color(GetPlayerColor { id: chris }), Ok(color.clone()));
    assert_eq!(
        sent_to(&out[before..], chris),
        vec![OutgoingWebsocketMessage::PlayerStatus(PlayerStatus {
            player: PlayerSerializable { username: "Chris".to_string(), id: chris, color },
            status: PlayerConnectionStatus::Existing,
        })]
    );
    assert_eq!(game.handle_get_player_color(GetPlayerColor { id: 5 }), Err(GameFault::UnknownPlayer(5)));
    assert_eq!(
        incoming(&mut game, 5, IncomingWebsocketMessage::ChooseColor(ChooseColor { color: "#000000".to_string() }), &mut out),
        Err(GameFault::UnknownPlayer(5))
    );
}

#[test]
fn reset_game_tells_everybody_and_empties_the_lobby() {
    let mut game = new_game(0);
    let mut out = Vec::new();
    let (_, _, _) = started(&["Chris"], &mut out, &mut game);
    let chris = game.get_imposters()[0].id;
    let before = out.len();
    game.handle_reset_game(ResetGame {}, &mut out);
    assert_eq!(
        out[before..].to_vec(),
        vec![
            Effect::Send {
                to: chris,
                msg: OutgoingWebsocketMessage::GameState(GameState { state: GameStateEnum::Reset }),
            },
            Effect::CloseWebsocket { player: chris },
        ]
    );
    assert!(!game.handle_player_exists(PlayerExists { id: chris }));
    assert!(!game.handle_has_game_started(HasGameStarted {}));
    assert_eq!(game.alive_players(), 0);
}

#[test]
fn living_players_are_living_crewmates_and_imposters() {
    let mut game = new_game(0);
    let mut out = Vec::new();
    let (imposters, crewmates, _) = started(&["A", "B", "C", "D", "E"], &mut out, &mut game);
    assert_eq!(game.alive_players(), game.crewmates_alive() + game.imposters_alive());
    incoming(&mut game, imposters[0], kill(crewmates[0]), &mut out).unwrap();
    assert_eq!(game.alive_players(), 4);
    assert_eq!(game.alive_players(), game.crewmates_alive() + game.imposters_alive());
}

#[test]
fn kill_with_zero_cooldown_succeeds_once_time_passes() {
    let mut game = new_game(0);
    let mut out = Vec::new();
    let (imposters, crewmates, _) = started(&["Chris", "Kate"], &mut out, &mut game);
    let start = std::time::Instant::now();
    while start.elapsed() < Duration::from_millis(1) {}
    assert_eq!(game.validate_kill_can_happen(imposters[0], crewmates[0]), Ok(None));
}

#[test]
fn draws_choose_new_players_only_while_imposters_are_missing() {
    let mut chosen = vec![false, false, false];
    assert_eq!(choose_drawn(&mut chosen, 2, 1), 1);
    assert_eq!(chosen, vec![false, true, false]);
    assert_eq!(choose_drawn(&mut chosen, 1, 1), 1);
    assert_eq!(chosen, vec![false, true, false]);
    assert_eq!(choose_drawn(&mut chosen, 1, 2), 0);
    assert_eq!(chosen, vec![false, true, true]);
    assert_eq!(choose_drawn(&mut chosen, 0, 0), 0);
    assert_eq!(chosen, vec![false, true, true]);
}

#[test]
fn completed_kill_restarts_the_cooldown_at_the_given_reading() {
    let mut game = new_game(0);
    let mut out = Vec::new();
    let (imposters, crewmates, _) = started(&["Chris", "Kate"], &mut out, &mut game);
    let long_ago = std::time::Instant::now() - Duration::from_secs(100);
    let before = out.len();
    game.complete_kill(imposters[0], crewmates[0], long_ago, &mut out);
    assert_eq!(
        out[before..].to_vec(),
        vec![
            Effect::Send { to: imposters[0], msg: OutgoingWebsocketMessage::SuccessfulKill(crewmates[0]) },
            Effect::Send {
                to: crewmates[0],
                msg: OutgoingWebsocketMessage::PlayerDied(PlayerDied { killer: imposters[0] }),
            },
        ]
    );
    match game.get_imposters()[0].role {
        Some(Role::Imposter(imp)) => assert!(imp.nanos_since_last_kill() >= 100_000_000_000),
        ref other => panic!("unexpected {:?}", other),
    }
    assert_eq!(game.crewmates_alive(), 0);
}
