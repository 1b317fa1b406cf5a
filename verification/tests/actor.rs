use room_server::actor::{
    connect, process, process_with_id, Connection, Event, Peer, Reply, DUPLICATE_NOTICE,
    NAME_PROMPT, NEXT_TURN, NOT_YOUR_TURN_NOTICE, NO_FIGHT_NOTICE, ROOM_FULL_NOTICE, ROOM_PROMPT,
    YOUR_TURN,
};
use room_server::ident::PlayerId;
use room_server::model::{Phase, Variant};
use room_server::payload::Command;
use room_server::registry::Shared;

fn id(n: u128) -> PlayerId {
    PlayerId::from_u128(n)
}

fn line(text: &str) -> Event {
    Event::Line(text.to_string())
}

fn strings(lines: &[&str]) -> Vec<String> {
    lines.iter().map(|l| l.to_string()).collect()
}

fn assert_silent(reply: &Reply) {
    assert!(reply.lines.is_empty());
    assert!(!reply.close);
}

fn enter(state: &mut Shared, room: &str, name: &str, n: u128) -> Connection {
    let (mut connection, greeting) = connect();
    assert_eq!(greeting.lines, strings(&[ROOM_PROMPT]));
    assert!(!greeting.close);
    let reply = process_with_id(state, &mut connection, line(room), id(n));
    assert_eq!(reply.lines, strings(&[NAME_PROMPT]));
    assert!(!reply.close);
    let reply = process_with_id(state, &mut connection, line(name), id(n));
    assert!(!reply.close);
    assert!(matches!(connection, Connection::Joined { .. }));
    connection
}

fn hp(state: &Shared, room: &str, n: u128) -> i64 {
    state.room(room).unwrap().player(id(n)).unwrap().hp()
}

#[test]
fn texts_are_those_of_the_protocol() {
    assert_eq!(ROOM_PROMPT, "Please enter your room name:");
    assert_eq!(NAME_PROMPT, "Please enter your username:");
    assert_eq!(ROOM_FULL_NOTICE, "No room in lobby");
    assert_eq!(YOUR_TURN, "Your turn");
    assert_eq!(NEXT_TURN, "next turn");
}

#[test]
fn handshake_asks_for_room_then_name() {
    let mut state = Shared::new();
    let (mut connection, greeting) = connect();
    assert!(matches!(connection, Connection::AwaitingRoom));
    assert_eq!(greeting.lines, strings(&["Please enter your room name:"]));
    let reply = process_with_id(&mut state, &mut connection, line("arena"), id(1));
    assert_eq!(reply.lines, strings(&["Please enter your username:"]));
    match &connection {
        Connection::AwaitingName { room } => assert_eq!(room, "arena"),
        _ => panic!("the connection should wait for the name"),
    }
    assert_eq!(state.room_count(), 0);
    let reply = process_with_id(&mut state, &mut connection, line("Alice"), id(1));
    assert_silent(&reply);
    match &connection {
        Connection::Joined { peer } => {
            assert_eq!(peer.room(), "arena");
            assert_eq!(peer.name(), "Alice");
            assert_eq!(peer.id(), id(1));
        },
        _ => panic!("the connection should have joined"),
    }
    assert_eq!(state.room("arena").unwrap().ids(), vec![id(1)]);
}

#[test]
fn disconnect_during_the_handshake_changes_nothing() {
    let mut state = Shared::new();
    let (mut connection, _) = connect();
    let reply = process_with_id(&mut state, &mut connection, Event::Disconnected, id(1));
    assert!(reply.close);
    assert!(reply.lines.is_empty());
    assert!(matches!(connection, Connection::Closed));

    let (mut connection, _) = connect();
    process_with_id(&mut state, &mut connection, line("arena"), id(1));
    let reply = process_with_id(&mut state, &mut connection, Event::Disconnected, id(1));
    assert!(reply.close);
    assert!(matches!(connection, Connection::Closed));
    assert_eq!(state.room_count(), 0);
}

#[test]
fn closed_connection_stays_closed() {
    let mut state = Shared::new();
    let mut connection = Connection::Closed;
    let reply = process_with_id(&mut state, &mut connection, line("arena"), id(1));
    assert!(reply.close);
    assert!(reply.lines.is_empty());
    assert!(matches!(connection, Connection::Closed));
    let reply = process_with_id(&mut state, &mut connection, Event::Disconnected, id(1));
    assert!(reply.close);
    assert_eq!(state.room_count(), 0);
}

#[test]
fn join_to_a_full_room_is_dismissed_without_a_trace() {
    let mut state = Shared::new();
    enter(&mut state, "arena", "Alice", 1);
    enter(&mut state, "arena", "Bob", 2);
    state.take_outbound("arena", id(1));
    let (mut connection, _) = connect();
    process_with_id(&mut state, &mut connection, line("arena"), id(3));
    let reply = process_with_id(&mut state, &mut connection, line("Carol"), id(3));
    assert_eq!(reply.lines, strings(&["No room in lobby"]));
    assert!(reply.close);
    assert!(matches!(connection, Connection::Closed));
    let room = state.room("arena").unwrap();
    assert_eq!(room.ids(), vec![id(1), id(2)]);
    assert_eq!(room.turn(), Some(id(1)));
    assert!(room.player(id(1)).unwrap().outbound().is_empty());
    assert!(room.player(id(2)).unwrap().outbound().is_empty());
}

#[test]
fn join_under_a_taken_identifier_is_dismissed() {
    let mut state = Shared::with_capacity(Variant::Chat, 3);
    enter(&mut state, "lobby", "Alice", 1);
    let (mut connection, _) = connect();
    process_with_id(&mut state, &mut connection, line("lobby"), id(1));
    let reply = process_with_id(&mut state, &mut connection, line("Impostor"), id(1));
    assert_eq!(reply.lines, strings(&[DUPLICATE_NOTICE]));
    assert!(reply.close);
    assert!(matches!(connection, Connection::Closed));
    assert_eq!(state.room("lobby").unwrap().len(), 1);
    assert!(state.take_outbound("lobby", id(1)).is_empty());
}

#[test]
fn second_join_tells_the_first_joiner_that_the_turn_is_theirs() {
    let mut state = Shared::new();
    enter(&mut state, "arena", "Alice", 1);
    assert!(state.take_outbound("arena", id(1)).is_empty());
    enter(&mut state, "arena", "Bob", 2);
    assert_eq!(state.take_outbound("arena", id(1)), strings(&["Your turn"]));
    assert!(state.take_outbound("arena", id(2)).is_empty());
    assert_eq!(state.phase("arena"), Phase::InProgress(id(1)));
}

#[test]
fn two_clients_fight_in_the_arena() {
    let mut state = Shared::new();
    let mut alice = enter(&mut state, "arena", "Alice", 1);
    let mut bob = enter(&mut state, "arena", "Bob", 2);
    assert_eq!(state.take_outbound("arena", id(1)), strings(&["Your turn"]));

    let reply = process_with_id(&mut state, &mut alice, line("{\"attack\": 15}"), id(0));
    assert_silent(&reply);
    assert_eq!(hp(&state, "arena", 2), 5);
    assert_eq!(hp(&state, "arena", 1), 10);
    assert_eq!(state.phase("arena"), Phase::InProgress(id(2)));
    assert_eq!(state.take_outbound("arena", id(2)), strings(&["next turn"]));
    assert!(state.take_outbound("arena", id(1)).is_empty());

    let reply = process_with_id(&mut state, &mut bob, line("{\"attack\": 20}"), id(0));
    assert!(reply.close);
    assert!(reply.lines.is_empty());
    assert!(matches!(bob, Connection::Closed));
    assert_eq!(hp(&state, "arena", 1), 0);
    assert_eq!(state.phase("arena"), Phase::Finished);
    assert_eq!(state.room("arena").unwrap().ids(), vec![id(1)]);
    assert_eq!(
        state.take_outbound("arena", id(1)),
        strings(&["Alice has lost!", "Bob has left the room arena"])
    );

    let reply = process_with_id(&mut state, &mut alice, line("{\"attack\": 50}"), id(0));
    assert_eq!(reply.lines, strings(&[NO_FIGHT_NOTICE]));
    assert!(!reply.close);
    assert!(matches!(alice, Connection::Joined { .. }));
    assert_eq!(hp(&state, "arena", 1), 0);
    assert_eq!(state.phase("arena"), Phase::Finished);
    assert!(state.apply_attack("arena", id(2), 50).is_err());

    let reply = process_with_id(&mut state, &mut alice, Event::Disconnected, id(0));
    assert!(reply.close);
    assert_eq!(state.room_count(), 0);
}

#[test]
fn fight_with_minted_identifiers() {
    let mut state = Shared::new();
    let (mut alice, _) = connect();
    process(&mut state, &mut alice, line("arena"));
    assert_silent(&process(&mut state, &mut alice, line("Alice")));
    let (mut bob, _) = connect();
    process(&mut state, &mut bob, line("arena"));
    assert_silent(&process(&mut state, &mut bob, line("Bob")));
    let alice_id = match &alice {
        Connection::Joined { peer } => peer.id(),
        _ => panic!("Alice should have joined"),
    };
    let bob_id = match &bob {
        Connection::Joined { peer } => peer.id(),
        _ => panic!("Bob should have joined"),
    };
    assert_ne!(alice_id, bob_id);
    assert_eq!(state.room("arena").unwrap().ids(), vec![alice_id, bob_id]);
    assert_eq!(state.take_outbound("arena", alice_id), strings(&["Your turn"]));
    assert_silent(&process(&mut state, &mut alice, line("{\"attack\": 15}")));
    assert_eq!(state.room("arena").unwrap().player(bob_id).unwrap().hp(), 5);
    let reply = process(&mut state, &mut bob, line("{\"attack\": 20}"));
    assert!(reply.close);
    assert_eq!(state.phase("arena"), Phase::Finished);
}

#[test]
fn malformed_attack_leaves_the_connection_open_and_the_room_as_it_was() {
    let mut state = Shared::new();
    let mut alice = enter(&mut state, "arena", "Alice", 1);
    enter(&mut state, "arena", "Bob", 2);
    state.take_outbound("arena", id(1));
    for text in ["attack", "{\"attack\": ", "{\"attack\": \"hard\"}", "I attack you"] {
        let reply = process_with_id(&mut state, &mut alice, line(text), id(0));
        assert_silent(&reply);
        assert!(matches!(alice, Connection::Joined { .. }));
    }
    let room = state.room("arena").unwrap();
    assert_eq!(room.ids(), vec![id(1), id(2)]);
    assert_eq!(room.turn(), Some(id(1)));
    assert_eq!(room.phase(), Phase::InProgress(id(1)));
    assert_eq!(room.player(id(1)).unwrap().hp(), 10);
    assert_eq!(room.player(id(2)).unwrap().hp(), 10);
    assert!(room.player(id(1)).unwrap().outbound().is_empty());
    assert!(room.player(id(2)).unwrap().outbound().is_empty());
    let reply = process_with_id(&mut state, &mut alice, line("{\"attack\": 11}"), id(0));
    assert_silent(&reply);
    assert_eq!(hp(&state, "arena", 2), 9);
}

#[test]
fn attack_out_of_turn_is_answered_with_the_reason() {
    let mut state = Shared::new();
    enter(&mut state, "arena", "Alice", 1);
    let mut bob = enter(&mut state, "arena", "Bob", 2);
    state.take_outbound("arena", id(1));
    let reply = process_with_id(&mut state, &mut bob, line("{\"attack\": 99}"), id(0));
    assert_eq!(reply.lines, strings(&[NOT_YOUR_TURN_NOTICE]));
    assert!(!reply.close);
    assert!(matches!(bob, Connection::Joined { .. }));
    assert_eq!(hp(&state, "arena", 1), 10);
    assert_eq!(hp(&state, "arena", 2), 10);
    assert_eq!(state.room("arena").unwrap().turn(), Some(id(1)));
    assert!(state.take_outbound("arena", id(1)).is_empty());
}

#[test]
fn attack_before_the_second_player_is_answered_with_the_reason() {
    let mut state = Shared::new();
    let mut alice = enter(&mut state, "arena", "Alice", 1);
    let reply = process_with_id(&mut state, &mut alice, line("{\"attack\": 99}"), id(0));
    assert_eq!(reply.lines, strings(&["No fight is in progress"]));
    assert!(!reply.close);
    assert_eq!(hp(&state, "arena", 1), 10);
}

#[test]
fn plain_text_in_a_combat_room_goes_to_the_other_as_it_is() {
    let mut state = Shared::new();
    let mut alice = enter(&mut state, "arena", "Alice", 1);
    enter(&mut state, "arena", "Bob", 2);
    state.take_outbound("arena", id(1));
    let reply = process_with_id(&mut state, &mut alice, line("good luck"), id(0));
    assert_silent(&reply);
    assert_eq!(state.take_outbound("arena", id(2)), strings(&["good luck"]));
    assert!(state.take_outbound("arena", id(1)).is_empty());
}

#[test]
fn disconnect_of_a_member_tells_those_who_stay() {
    let mut state = Shared::new();
    let mut alice = enter(&mut state, "arena", "Alice", 1);
    enter(&mut state, "arena", "Bob", 2);
    state.take_outbound("arena", id(1));
    let reply = process_with_id(&mut state, &mut alice, Event::Disconnected, id(0));
    assert!(reply.close);
    assert!(reply.lines.is_empty());
    assert!(matches!(alice, Connection::Closed));
    assert_eq!(state.room("arena").unwrap().ids(), vec![id(2)]);
    assert_eq!(state.take_outbound("arena", id(2)), strings(&["Alice has left the room arena"]));
}

#[test]
fn chat_room_announces_joins_lines_and_departures() {
    let mut state = Shared::with_capacity(Variant::Chat, 3);
    let mut alice = enter(&mut state, "lobby", "Alice", 1);
    let mut bob = enter(&mut state, "lobby", "Bob", 2);
    enter(&mut state, "lobby", "Carol", 3);
    assert_eq!(
        state.take_outbound("lobby", id(1)),
        strings(&["Bob has joined the room lobby", "Carol has joined the room lobby"])
    );
    assert_eq!(state.take_outbound("lobby", id(2)), strings(&["Carol has joined the room lobby"]));
    assert!(state.take_outbound("lobby", id(3)).is_empty());

    assert_silent(&process_with_id(&mut state, &mut alice, line("hello"), id(0)));
    assert_silent(&process_with_id(&mut state, &mut bob, line("{\"attack\": 15}"), id(0)));
    assert!(state.take_outbound("lobby", id(1)) == strings(&["Bob: {\"attack\": 15}"]));
    assert_eq!(state.take_outbound("lobby", id(2)), strings(&["Alice: hello"]));
    assert_eq!(
        state.take_outbound("lobby", id(3)),
        strings(&["Alice: hello", "Bob: {\"attack\": 15}"])
    );
    assert_eq!(hp(&state, "lobby", 1), 10);

    let reply = process_with_id(&mut state, &mut bob, Event::Disconnected, id(0));
    assert!(reply.close);
    assert_eq!(state.take_outbound("lobby", id(1)), strings(&["Bob has left the room lobby"]));
    assert_eq!(state.take_outbound("lobby", id(3)), strings(&["Bob has left the room lobby"]));
}

#[test]
fn peer_joins_handles_and_departs() {
    let mut state = Shared::new();
    let (alice, reply) = Peer::new(&mut state, "arena", "Alice", id(1));
    let alice = alice.unwrap();
    assert_silent(&reply);
    let (bob, reply) = Peer::new(&mut state, "arena", "Bob", id(2));
    let bob = bob.unwrap();
    assert_silent(&reply);
    let (carol, reply) = Peer::new(&mut state, "arena", "Carol", id(3));
    assert!(carol.is_none());
    assert_eq!(reply.lines, strings(&["No room in lobby"]));
    assert!(reply.close);
    assert_eq!(alice.take_outbound(&mut state), strings(&["Your turn"]));

    assert_silent(&alice.handle(&mut state, "whatever", Command::Malformed));
    assert_silent(&alice.handle(&mut state, "hi", Command::Say));
    assert_eq!(bob.take_outbound(&mut state), strings(&["hi"]));
    assert_silent(&alice.handle(&mut state, "{\"attack\": 12}", Command::Attack(12)));
    assert_eq!(bob.take_outbound(&mut state), strings(&["next turn"]));
    assert_eq!(hp(&state, "arena", 2), 8);
    let reply = alice.handle(&mut state, "{\"attack\": 12}", Command::Attack(12));
    assert_eq!(reply.lines, strings(&["It is not your turn"]));
    let reply = bob.handle(&mut state, "{\"attack\": 30}", Command::Attack(30));
    assert!(reply.close);
    assert_eq!(
        alice.take_outbound(&mut state),
        strings(&["Alice has lost!", "Bob has left the room arena"])
    );
    alice.depart(&mut state);
    assert_eq!(state.room_count(), 0);
}
