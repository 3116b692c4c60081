use among_us_server::effects::Effect;
use among_us_server::outgoing_websocket_messages::{
    ChatMessage, GameState, GameStateEnum, OutgoingWebsocketMessage, RoleAssignment, SetRole,
};
use among_us_server::player::{cooldown_message_for, split_nanos, Imposter, Player, PlayerSerializable, Role};
use std::time::{Duration, Instant};

fn chat(text: &str) -> OutgoingWebsocketMessage {
    OutgoingWebsocketMessage::ChatMessage(ChatMessage { contents: text.to_string() })
}

#[test]
fn new_player_defaults() {
    let p = Player::new("Chris", 7);
    assert_eq!(p.role, None);
    assert_eq!(p.username, "Chris");
    assert!(p.alive);
    assert_eq!(p.color, "#FFFFFF");
    assert!(!p.has_connected_previously);
    assert_eq!(p.id, 7);
    assert!(!p.websocket_open);
    assert!(p.previously_sent_messages.is_empty());
}

#[test]
fn messages_to_a_closed_socket_are_only_remembered() {
    let mut p = Player::new("Chris", 7);
    let mut out = Vec::new();
    p.send_outgoing_message(chat("hi"), &mut out);
    assert!(out.is_empty());
    assert_eq!(p.previously_sent_messages, vec![chat("hi")]);
}

#[test]
fn messages_to_an_open_socket_are_sent_and_remembered() {
    let mut p = Player::new("Chris", 7);
    let mut out = Vec::new();
    p.set_websocket_address();
    assert!(p.websocket_open);
    assert!(p.has_connected_previously);
    p.send_outgoing_message(chat("a"), &mut out);
    p.send_outgoing_message(chat("b"), &mut out);
    assert_eq!(
        out,
        vec![Effect::Send { to: 7, msg: chat("a") }, Effect::Send { to: 7, msg: chat("b") }]
    );
    assert_eq!(p.previously_sent_messages, vec![chat("a"), chat("b")]);
}

#[test]
fn history_is_replayed_in_order() {
    let mut p = Player::new("Chris", 7);
    let mut out = Vec::new();
    p.send_outgoing_message(chat("a"), &mut out);
    p.send_outgoing_message(chat("b"), &mut out);
    p.set_websocket_address();
    p.send_all_previous_messages(&mut out);
    assert_eq!(
        out,
        vec![Effect::Send { to: 7, msg: chat("a") }, Effect::Send { to: 7, msg: chat("b") }]
    );
}

#[test]
fn closing_a_socket_asks_once() {
    let mut p = Player::new("Chris", 7);
    let mut out = Vec::new();
    p.close_websocket(&mut out);
    assert!(out.is_empty());
    p.set_websocket_address();
    p.close_websocket(&mut out);
    assert_eq!(out, vec![Effect::CloseWebsocket { player: 7 }]);
    assert!(!p.websocket_open);
    assert!(p.has_connected_previously);
    p.send_outgoing_message(chat("late"), &mut out);
    assert_eq!(out.len(), 1);
}

#[test]
fn set_role_tells_the_player() {
    let mut p = Player::new("Kate", 9);
    let mut out = Vec::new();
    p.set_websocket_address();
    p.set_role(RoleAssignment::Crewmate, Duration::from_secs(3), &mut out);
    assert_eq!(p.role, Some(Role::Crewmate));
    let told = OutgoingWebsocketMessage::PlayerRole(SetRole { role: RoleAssignment::Crewmate, id: 9 });
    assert_eq!(out, vec![Effect::Send { to: 9, msg: told.clone() }]);
    assert_eq!(p.previously_sent_messages, vec![told]);
    let mut q = Player::new("Ski", 10);
    q.set_role(RoleAssignment::Imposter, Duration::from_secs(3), &mut out);
    match q.role {
        Some(Role::Imposter(imp)) => assert_eq!(imp.cooldown_nanos(), 3_000_000_000),
        other => panic!("unexpected {:?}", other),
    }
}

#[test]
fn duplicate_and_color() {
    let mut p = Player::new("Chris", 7);
    let mut out = Vec::new();
    p.send_outgoing_message(
        OutgoingWebsocketMessage::GameState(GameState { state: GameStateEnum::Lobby }),
        &mut out,
    );
    p.set_color("#123456".to_string());
    let q = p.duplicate();
    assert_eq!(q.color, "#123456");
    assert_eq!(q.username, p.username);
    assert_eq!(q.previously_sent_messages, p.previously_sent_messages);
    let shown = PlayerSerializable::generate_for_user(&q, &99);
    assert_eq!(
        shown,
        PlayerSerializable { username: "Chris".to_string(), id: 7, color: "#123456".to_string() }
    );
    assert_eq!(shown.duplicate(), shown);
}

#[test]
fn imposter_cooldown_runs_from_the_last_kill() {
    let long = Imposter::new(Duration::from_secs(1000));
    assert!(!long.kill_is_off_cooldown());
    let left = long.cooldown_remaining().unwrap();
    assert!(left <= Duration::from_secs(1000));
    assert!(left > Duration::from_secs(900));
    let reset = long.reset_kill_cooldown();
    assert_eq!(reset.cooldown_nanos(), 1_000_000_000_000);
    let none = Imposter::new(Duration::from_secs(0));
    let start = Instant::now();
    while start.elapsed() < Duration::from_millis(2) {}
    assert!(none.kill_is_off_cooldown());
    assert_eq!(none.cooldown_remaining(), None);
    assert!(none.nanos_since_last_kill() >= 2_000_000);
}

#[test]
fn nanoseconds_split_into_seconds_and_rest() {
    assert_eq!(split_nanos(0), (0, 0));
    assert_eq!(split_nanos(1_500_000_000), (1, 500_000_000));
    assert_eq!(split_nanos(999_999_999), (0, 999_999_999));
    assert_eq!(split_nanos(Duration::MAX.as_nanos()), (u64::MAX, 999_999_999));
}

#[test]
fn cooldown_message_shows_the_remaining_duration() {
    assert_eq!(
        cooldown_message_for(2_500_000_000),
        format!("You are not off kill cooldown yet. Try again in {:#?}", Duration::from_millis(2500))
    );
    assert_eq!(cooldown_message_for(2_500_000_000), "You are not off kill cooldown yet. Try again in 2.5s");
}

#[test]
fn cooldown_counts_from_the_given_reading() {
    let long_ago = Instant::now() - Duration::from_secs(100);
    let imp = Imposter::started_at(Duration::from_secs(50), long_ago);
    assert!(imp.kill_is_off_cooldown());
    assert_eq!(imp.cooldown_nanos(), 50_000_000_000);
    let fresh = imp.restarted_at(Instant::now());
    assert!(!fresh.kill_is_off_cooldown());
    assert_eq!(fresh.cooldown_nanos(), 50_000_000_000);
    let mut p = Player::new("Kate", 9);
    let mut out = Vec::new();
    p.set_role_at(RoleAssignment::Imposter, Duration::from_secs(50), long_ago, &mut out);
    match p.role {
        Some(Role::Imposter(i)) => assert!(i.kill_is_off_cooldown()),
        other => panic!("unexpected {:?}", other),
    }
}

#[test]
fn cooldown_decisions_for_a_given_elapsed_time() {
    let imp = Imposter::new(Duration::from_secs(2));
    assert!(!imp.off_cooldown_at(2_000_000_000));
    assert!(imp.off_cooldown_at(2_000_000_001));
    assert!(!imp.off_cooldown_at(0));
    assert_eq!(imp.remaining_at(500_000_000), Some(Duration::from_millis(1500)));
    assert_eq!(imp.remaining_at(2_000_000_000), Some(Duration::from_secs(0)));
    assert_eq!(imp.remaining_at(2_000_000_001), None);
}
