use room_server::ident::PlayerId;
use room_server::model::{JoinResult, Phase, RejectReason, Variant};
use room_server::registry::Shared;
use room_server::room::RoomState;

fn id(n: u128) -> PlayerId {
    PlayerId::from_u128(n)
}

fn two_in_arena() -> Shared {
    let mut shared = Shared::new();
    assert_eq!(shared.join_with_id("arena", "Alice", id(1)), JoinResult::Joined(id(1)));
    assert_eq!(shared.join_with_id("arena", "Bob", id(2)), JoinResult::Joined(id(2)));
    shared
}

#[test]
fn new_registry_is_combat_for_two_and_empty() {
    let shared = Shared::new();
    assert_eq!(shared.capacity(), 2);
    assert_eq!(shared.variant(), Variant::Combat);
    assert_eq!(shared.room_count(), 0);
    assert!(shared.room("arena").is_none());
    assert_eq!(shared.phase("arena"), Phase::Empty);
}

#[test]
fn first_join_creates_the_room() {
    let mut shared = Shared::new();
    assert_eq!(shared.join_with_id("arena", "Alice", id(7)), JoinResult::Joined(id(7)));
    assert_eq!(shared.room_count(), 1);
    let room = shared.room("arena").unwrap();
    assert_eq!(room.name(), "arena");
    assert_eq!(room.len(), 1);
    assert_eq!(room.capacity(), 2);
    assert_eq!(room.turn(), None);
    assert_eq!(room.phase(), Phase::WaitingForSecondPlayer);
    let alice = room.player(id(7)).unwrap();
    assert_eq!(alice.name(), "Alice");
    assert_eq!(alice.hp(), 10);
    assert_eq!(alice.defense(), 10);
    assert!(alice.outbound().is_empty());
}

#[test]
fn second_join_gives_the_turn_to_the_first_joiner() {
    let shared = two_in_arena();
    let room = shared.room("arena").unwrap();
    assert_eq!(room.turn(), Some(id(1)));
    assert_eq!(room.phase(), Phase::InProgress(id(1)));
    assert_eq!(room.ids(), vec![id(1), id(2)]);
}

#[test]
fn third_join_to_a_full_room_is_rejected_and_changes_nothing() {
    let mut shared = two_in_arena();
    assert_eq!(
        shared.join_with_id("arena", "Carol", id(3)),
        JoinResult::Rejected(RejectReason::RoomFull)
    );
    let room = shared.room("arena").unwrap();
    assert_eq!(room.ids(), vec![id(1), id(2)]);
    assert_eq!(room.turn(), Some(id(1)));
    assert!(!room.contains(id(3)));
    assert_eq!(room.player(id(1)).unwrap().hp(), 10);
    assert_eq!(room.player(id(2)).unwrap().hp(), 10);
    assert_eq!(shared.room_count(), 1);
}

#[test]
fn full_room_is_reported_before_a_duplicate_identifier() {
    let mut shared = two_in_arena();
    assert_eq!(
        shared.join_with_id("arena", "Alice", id(1)),
        JoinResult::Rejected(RejectReason::RoomFull)
    );
}

#[test]
fn duplicate_identifier_is_rejected_and_changes_nothing() {
    let mut shared = Shared::new();
    shared.join_with_id("arena", "Alice", id(1));
    assert_eq!(
        shared.join_with_id("arena", "Impostor", id(1)),
        JoinResult::Rejected(RejectReason::DuplicateId)
    );
    let room = shared.room("arena").unwrap();
    assert_eq!(room.len(), 1);
    assert_eq!(room.player(id(1)).unwrap().name(), "Alice");
}

#[test]
fn same_identifier_may_sit_in_two_rooms() {
    let mut shared = Shared::new();
    assert_eq!(shared.join_with_id("arena", "Alice", id(1)), JoinResult::Joined(id(1)));
    assert_eq!(shared.join_with_id("cellar", "Alice", id(1)), JoinResult::Joined(id(1)));
    assert_eq!(shared.room_count(), 2);
}

#[test]
fn capacity_holds_after_many_joins_and_leaves() {
    let mut shared = Shared::with_capacity(Variant::Chat, 3);
    let mut n: u128 = 0;
    while n < 40 {
        shared.join_with_id("lobby", "guest", id(n));
        if n % 3 == 0 {
            shared.leave("lobby", id(n / 2));
        }
        let members = shared.room("lobby").map(|r| r.len()).unwrap_or(0);
        assert!(members <= 3);
        n += 1;
    }
    assert_eq!(shared.room("lobby").unwrap().len(), 3);
}

#[test]
fn registry_of_capacity_zero_admits_nobody() {
    let mut shared = Shared::with_capacity(Variant::Chat, 0);
    assert_eq!(
        shared.join_with_id("void", "Alice", id(1)),
        JoinResult::Rejected(RejectReason::RoomFull)
    );
    assert_eq!(shared.room_count(), 0);
}

#[test]
fn chat_room_of_three_sets_no_turn() {
    let mut shared = Shared::with_capacity(Variant::Chat, 3);
    shared.join_with_id("lobby", "a", id(1));
    shared.join_with_id("lobby", "b", id(2));
    assert_eq!(shared.room("lobby").unwrap().turn(), None);
    assert_eq!(shared.join_with_id("lobby", "c", id(3)), JoinResult::Joined(id(3)));
    assert_eq!(
        shared.join_with_id("lobby", "d", id(4)),
        JoinResult::Rejected(RejectReason::RoomFull)
    );
    assert_eq!(shared.phase("lobby"), Phase::WaitingForSecondPlayer);
}

#[test]
fn minted_identifiers_are_random_form_and_differ() {
    let mut shared = Shared::new();
    let first = match shared.join("arena", "Alice") {
        JoinResult::Joined(id) => id,
        other => panic!("first join was {:?}", other),
    };
    let second = match shared.join("arena", "Bob") {
        JoinResult::Joined(id) => id,
        other => panic!("second join was {:?}", other),
    };
    assert_ne!(first, second);
    for minted in [first, second] {
        assert_eq!((minted.as_u128() >> 76) & 0xf, 4);
        assert_eq!((minted.as_u128() >> 62) & 0x3, 2);
    }
    assert_eq!(shared.room("arena").unwrap().ids(), vec![first, second]);
    assert_eq!(shared.room("arena").unwrap().turn(), Some(first));
    assert_eq!(shared.join("arena", "Carol"), JoinResult::Rejected(RejectReason::RoomFull));
}

#[test]
fn leave_of_a_stranger_changes_nothing() {
    let mut shared = two_in_arena();
    assert!(!shared.leave("arena", id(9)));
    assert!(!shared.leave("nowhere", id(1)));
    assert_eq!(shared.room("arena").unwrap().ids(), vec![id(1), id(2)]);
    assert_eq!(shared.room_count(), 1);
}

#[test]
fn leave_of_the_turn_holder_passes_the_turn_on() {
    let mut shared = two_in_arena();
    assert!(shared.leave("arena", id(1)));
    let room = shared.room("arena").unwrap();
    assert_eq!(room.ids(), vec![id(2)]);
    assert_eq!(room.turn(), Some(id(2)));
    assert_eq!(room.phase(), Phase::WaitingForSecondPlayer);
}

#[test]
fn leave_of_the_other_keeps_the_turn() {
    let mut shared = two_in_arena();
    assert!(shared.leave("arena", id(2)));
    let room = shared.room("arena").unwrap();
    assert_eq!(room.ids(), vec![id(1)]);
    assert_eq!(room.turn(), Some(id(1)));
}

#[test]
fn leave_of_the_last_turn_holder_wraps_to_the_first() {
    let mut shared = Shared::with_capacity(Variant::Chat, 3);
    shared.join_with_id("lobby", "a", id(1));
    shared.join_with_id("lobby", "b", id(2));
    shared.join_with_id("lobby", "c", id(3));
    shared.next_turn("lobby");
    shared.next_turn("lobby");
    shared.next_turn("lobby");
    assert_eq!(shared.room("lobby").unwrap().turn(), Some(id(3)));
    shared.leave("lobby", id(3));
    assert_eq!(shared.room("lobby").unwrap().turn(), Some(id(1)));
}

#[test]
fn room_is_dropped_when_its_last_player_leaves() {
    let mut shared = two_in_arena();
    shared.leave("arena", id(1));
    shared.leave("arena", id(2));
    assert_eq!(shared.room_count(), 0);
    assert!(shared.room("arena").is_none());
    assert_eq!(shared.phase("arena"), Phase::Empty);
    assert_eq!(shared.join_with_id("arena", "Carol", id(3)), JoinResult::Joined(id(3)));
    assert_eq!(shared.room("arena").unwrap().turn(), None);
}

#[test]
fn join_after_a_leave_gives_the_turn_to_the_one_who_stayed() {
    let mut shared = two_in_arena();
    shared.leave("arena", id(1));
    assert_eq!(shared.join_with_id("arena", "Carol", id(3)), JoinResult::Joined(id(3)));
    let room = shared.room("arena").unwrap();
    assert_eq!(room.ids(), vec![id(2), id(3)]);
    assert_eq!(room.turn(), Some(id(2)));
}

#[test]
fn next_turn_follows_the_order_of_joining() {
    let mut shared = Shared::with_capacity(Variant::Chat, 3);
    shared.join_with_id("lobby", "a", id(30));
    shared.join_with_id("lobby", "b", id(10));
    shared.join_with_id("lobby", "c", id(20));
    assert_eq!(shared.room("lobby").unwrap().turn(), None);
    shared.next_turn("lobby");
    assert_eq!(shared.room("lobby").unwrap().turn(), Some(id(30)));
    shared.next_turn("lobby");
    assert_eq!(shared.room("lobby").unwrap().turn(), Some(id(10)));
    shared.next_turn("lobby");
    assert_eq!(shared.room("lobby").unwrap().turn(), Some(id(20)));
    shared.next_turn("lobby");
    assert_eq!(shared.room("lobby").unwrap().turn(), Some(id(30)));
}

#[test]
fn next_turn_in_a_missing_room_does_nothing() {
    let mut shared = Shared::new();
    shared.next_turn("nowhere");
    assert_eq!(shared.room_count(), 0);
}

#[test]
fn broadcast_reaches_everyone_but_the_sender_and_nobody_elsewhere() {
    let mut shared = Shared::with_capacity(Variant::Chat, 3);
    shared.join_with_id("lobby", "a", id(1));
    shared.join_with_id("lobby", "b", id(2));
    shared.join_with_id("lobby", "c", id(3));
    shared.join_with_id("cellar", "d", id(4));
    shared.broadcast("lobby", id(2), "hello");
    shared.broadcast("lobby", id(2), "again");
    let lobby = shared.room("lobby").unwrap();
    assert_eq!(lobby.player(id(1)).unwrap().outbound(), &vec!["hello".to_string(), "again".to_string()]);
    assert!(lobby.player(id(2)).unwrap().outbound().is_empty());
    assert_eq!(lobby.player(id(3)).unwrap().outbound(), &vec!["hello".to_string(), "again".to_string()]);
    assert!(shared.room("cellar").unwrap().player(id(4)).unwrap().outbound().is_empty());
}

#[test]
fn broadcast_excluding_a_stranger_reaches_everyone() {
    let mut shared = two_in_arena();
    shared.broadcast("arena", id(99), "to all");
    assert_eq!(shared.take_outbound("arena", id(1)), vec!["to all".to_string()]);
    assert_eq!(shared.take_outbound("arena", id(2)), vec!["to all".to_string()]);
}

#[test]
fn broadcast_to_a_missing_room_is_swallowed() {
    let mut shared = two_in_arena();
    shared.broadcast("nowhere", id(1), "anyone?");
    assert_eq!(shared.room_count(), 1);
    assert!(shared.take_outbound("arena", id(2)).is_empty());
}

#[test]
fn notify_reaches_one_player_only() {
    let mut shared = two_in_arena();
    shared.notify("arena", id(2), "psst");
    shared.notify("arena", id(9), "lost");
    shared.notify("nowhere", id(1), "lost");
    assert!(shared.take_outbound("arena", id(1)).is_empty());
    assert_eq!(shared.take_outbound("arena", id(2)), vec!["psst".to_string()]);
}

#[test]
fn take_outbound_empties_the_queue_in_order() {
    let mut shared = two_in_arena();
    shared.broadcast("arena", id(1), "one");
    shared.broadcast("arena", id(1), "two");
    assert_eq!(shared.take_outbound("arena", id(2)), vec!["one".to_string(), "two".to_string()]);
    assert!(shared.take_outbound("arena", id(2)).is_empty());
    assert!(shared.take_outbound("arena", id(9)).is_empty());
    assert!(shared.take_outbound("nowhere", id(2)).is_empty());
}

#[test]
fn room_on_its_own_follows_the_same_rules() {
    let mut room = RoomState::new("pit", 2, Variant::Combat);
    assert!(room.is_empty());
    assert_eq!(room.variant(), Variant::Combat);
    assert_eq!(room.phase(), Phase::Empty);
    assert_eq!(room.join("x", id(5)), JoinResult::Joined(id(5)));
    assert_eq!(room.join("y", id(6)), JoinResult::Joined(id(6)));
    assert_eq!(room.join("z", id(7)), JoinResult::Rejected(RejectReason::RoomFull));
    assert_eq!(room.turn(), Some(id(5)));
    room.next_turn();
    assert_eq!(room.turn(), Some(id(6)));
    room.broadcast(id(6), "hi");
    assert_eq!(room.take_outbound(id(5)), vec!["hi".to_string()]);
    room.notify(id(6), "you");
    assert_eq!(room.take_outbound(id(6)), vec!["you".to_string()]);
    assert!(room.leave(id(6)));
    assert_eq!(room.turn(), Some(id(5)));
    assert!(room.leave(id(5)));
    assert_eq!(room.phase(), Phase::Empty);
    assert_eq!(room.turn(), None);
}
