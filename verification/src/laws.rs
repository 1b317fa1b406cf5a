//! What holds of the registry whatever is asked of it.

use vstd::prelude::*;
use crate::actor::{
    chat_line, departed, fought, handled, joined_notice, left_notice, step, welcomed,
    ConnectionView, EventView, PeerView, ReplyView, NEXT_TURN, YOUR_TURN,
};
use crate::ident::PlayerId;
use crate::model::{
    damage, lemma_attacked_wf, lemma_drained_wf, lemma_joined_wf, lemma_left_wf,
    lemma_notified_wf, lemma_position, lemma_relayed_wf, lemma_rotated_wf,
    lemma_same_players_wf, JoinResult, RejectReason, RoomView, TurnViolation, Variant,
};
use crate::payload::{command_of, Command};
use crate::registry::{lemma_room_wf, lemma_with_room, lemma_with_same_room, SharedView};

verus! {

/// One request to the registry.
pub enum Request {
    Join { room: Seq<char>, name: Seq<char>, id: PlayerId },
    Leave { room: Seq<char>, id: PlayerId },
    Broadcast { room: Seq<char>, exclude: PlayerId, message: Seq<char> },
    Notify { room: Seq<char>, to: PlayerId, message: Seq<char> },
    TakeOutbound { room: Seq<char>, of: PlayerId },
    NextTurn { room: Seq<char> },
    Attack { room: Seq<char>, attacker: PlayerId, raw: int },
}

/// The registry after one request.
pub open spec fn served(shared: SharedView, request: Request) -> SharedView {
    match request {
        Request::Join { room, name, id } => shared.joined(room, name, id),
        Request::Leave { room, id } => shared.left(room, id),
        Request::Broadcast { room, exclude, message } => shared.relayed(room, exclude, message),
        Request::Notify { room, to, message } => shared.notified(room, to, message),
        Request::TakeOutbound { room, of } => shared.drained(room, of),
        Request::NextTurn { room } => shared.rotated(room),
        Request::Attack { room, attacker, raw } => shared.attacked(room, attacker, raw),
    }
}

/// The registry after a sequence of requests, served in order.
pub open spec fn replayed(shared: SharedView, requests: Seq<Request>) -> SharedView
    decreases requests.len(),
{
    if requests.len() == 0 {
        shared
    } else {
        served(replayed(shared, requests.drop_last()), requests.last())
    }
}

/// Whatever is asked of a well-formed registry, it stays well-formed.
pub proof fn law_served_keeps_invariant(shared: SharedView, request: Request)
    requires
        shared.wf(),
    ensures
        served(shared, request).wf(),
{
    match request {
        Request::Join { room, name, id } => {
            lemma_room_wf(shared, room);
            lemma_joined_wf(shared.room(room), name, id);
            lemma_with_room(shared, shared.room(room).joined(name, id));
        },
        Request::Leave { room, id } => {
            lemma_room_wf(shared, room);
            lemma_left_wf(shared.room(room), id);
            lemma_with_room(shared, shared.room(room).left(id));
        },
        Request::Broadcast { room, exclude, message } => {
            lemma_room_wf(shared, room);
            lemma_relayed_wf(shared.room(room), exclude, message);
            lemma_with_room(shared, shared.room(room).relayed(exclude, message));
        },
        Request::Notify { room, to, message } => {
            lemma_room_wf(shared, room);
            lemma_notified_wf(shared.room(room), to, message);
            lemma_with_room(shared, shared.room(room).notified(to, message));
        },
        Request::TakeOutbound { room, of } => {
            lemma_room_wf(shared, room);
            lemma_drained_wf(shared.room(room), of);
            lemma_with_room(shared, shared.room(room).drained(of));
        },
        Request::NextTurn { room } => {
            lemma_room_wf(shared, room);
            lemma_rotated_wf(shared.room(room));
            lemma_with_room(shared, shared.room(room).rotated());
        },
        Request::Attack { room, attacker, raw } => {
            lemma_room_wf(shared, room);
            lemma_attacked_wf(shared.room(room), attacker, raw);
            lemma_with_room(shared, shared.room(room).attacked(attacker, raw));
        },
    }
}

/// After any sequence of requests to a registry that started without rooms,
/// no room holds more players than the capacity allows, no two players of a
/// room share an identifier, and a turn is held by a player of the room.
pub proof fn law_capacity_is_never_exceeded(
    capacity: nat,
    variant: Variant,
    requests: Seq<Request>,
    room: Seq<char>,
)
    ensures
        replayed(SharedView::empty(capacity, variant), requests).wf(),
        replayed(SharedView::empty(capacity, variant), requests).capacity == capacity,
        replayed(SharedView::empty(capacity, variant), requests).variant == variant,
        replayed(SharedView::empty(capacity, variant), requests).room(room).wf(),
        replayed(SharedView::empty(capacity, variant), requests).room(room).peers.len() <= capacity,
    decreases requests.len(),
{
    let start = SharedView::empty(capacity, variant);
    if requests.len() > 0 {
        law_capacity_is_never_exceeded(capacity, variant, requests.drop_last(), room);
        law_served_keeps_invariant(replayed(start, requests.drop_last()), requests.last());
    }
    lemma_room_wf(replayed(start, requests), room);
}

/// A join request to a full room is turned down for want of room, and
/// changes nothing.
pub proof fn law_full_room_rejects(shared: SharedView, room: Seq<char>, name: Seq<char>, id: PlayerId)
    requires
        shared.wf(),
        shared.room(room).is_full(),
    ensures
        shared.room(room).join_result(id) == JoinResult::Rejected(RejectReason::RoomFull),
        shared.joined(room, name, id) == shared,
{
    lemma_with_same_room(shared, room);
}

/// When two players join an empty combat room, the turn goes to the one who
/// joined first.
pub proof fn law_first_joiner_holds_turn(
    shared: SharedView,
    room: Seq<char>,
    first_name: Seq<char>,
    first: PlayerId,
    second_name: Seq<char>,
    second: PlayerId,
)
    requires
        shared.wf(),
        shared.variant == Variant::Combat,
        shared.capacity >= 2,
        shared.room(room).peers.len() == 0,
        first != second,
    ensures
        shared.joined(room, first_name, first).room(room).turn is None,
        shared.joined(room, first_name, first).joined(room, second_name, second).room(room).turn
            == Some(first),
        shared.joined(room, first_name, first).joined(room, second_name, second).room(
            room,
        ).in_progress(),
{
    lemma_room_wf(shared, room);
    let empty = shared.room(room);
    assert(!empty.has(first));
    assert(empty.turn is None) by {
        if empty.turn is Some {
            assert(empty.has(empty.turn->0));
        }
    }
    let one = empty.joined(first_name, first);
    lemma_joined_wf(empty, first_name, first);
    lemma_with_room(shared, one);
    let mid = shared.joined(room, first_name, first);
    assert(mid.room(room) == one);
    assert(!one.has(second)) by {
        if one.has(second) {
            let k = one.position(second);
            assert(one.peers[k].id == second);
        }
    }
    let two = one.joined(second_name, second);
    lemma_joined_wf(one, second_name, second);
    lemma_with_room(mid, two);
}

/// An accepted attack takes from the opponent of the attacker as many hit
/// points as the strength exceeds the opponent's defense, and none if it
/// does not. Nobody else's hit points change, the attacker's least of all.
/// A rejected attack changes nobody's.
pub proof fn law_attack_hurts_only_the_opponent(
    room: RoomView,
    attacker: PlayerId,
    raw: int,
    i: int,
)
    requires
        room.wf(),
        0 <= i < room.peers.len(),
    ensures
        room.attacked(attacker, raw).peers.len() == room.peers.len(),
        room.attacked(attacker, raw).peers[i].id == room.peers[i].id,
        room.attacked(attacker, raw).peers[i].hp == if room.violation(attacker) is None
            && room.peers[i].id != attacker {
            room.peers[i].hp - damage(raw, room.peers[i].defense)
        } else {
            room.peers[i].hp
        },
        room.attacked(attacker, raw).peers[i].hp <= room.peers[i].hp,
        damage(raw, room.peers[i].defense) >= 0,
        damage(raw, room.peers[i].defense) >= raw - room.peers[i].defense,
        damage(raw, room.peers[i].defense) == 0 || damage(raw, room.peers[i].defense) == raw
            - room.peers[i].defense,
{
    if room.violation(attacker) is None {
        let a = room.position(attacker);
        assert(0 <= a < 2 && room.peers[a].id == attacker);
        lemma_position(room, i);
        if i != a {
            assert(room.peers[i].id != attacker) by {
                if i < a {
                    assert(room.peers[i].id != room.peers[a].id);
                } else {
                    assert(room.peers[a].id != room.peers[i].id);
                }
            }
        }
    }
}

/// The attacker's own hit points are the same after an attack as before.
pub proof fn law_attack_spares_the_attacker(room: RoomView, attacker: PlayerId, raw: int)
    requires
        room.wf(),
        room.has(attacker),
    ensures
        room.attacked(attacker, raw).has(attacker),
        room.attacked(attacker, raw).player(attacker).hp == room.player(attacker).hp,
{
    let a = room.position(attacker);
    let after = room.attacked(attacker, raw);
    lemma_attacked_wf(room, attacker, raw);
    law_attack_hurts_only_the_opponent(room, attacker, raw, a);
    assert(after.peers[a].id == attacker);
    lemma_position(after, a);
}

/// An attack by anybody but the turn holder is turned down and changes
/// nothing: not the hit points, not the turn, nothing else.
pub proof fn law_out_of_turn_attack_is_rejected(
    shared: SharedView,
    room: Seq<char>,
    attacker: PlayerId,
    raw: int,
)
    requires
        shared.wf(),
        shared.room(room).turn != Some(attacker),
    ensures
        shared.room(room).attack_result(attacker, raw) is Err,
        shared.room(room).attacked(attacker, raw) == shared.room(room),
        shared.attacked(room, attacker, raw) == shared,
{
    lemma_with_same_room(shared, room);
}

/// In a room that is finished, or where no fight between two players runs,
/// every attack is turned down and changes nothing.
pub proof fn law_no_attack_outside_a_fight(
    shared: SharedView,
    room: Seq<char>,
    attacker: PlayerId,
    raw: int,
)
    requires
        shared.wf(),
        !shared.room(room).in_progress(),
    ensures
        shared.room(room).attack_result(attacker, raw) == Err::<Option<Seq<char>>, TurnViolation>(
            TurnViolation::RoomNotInProgress,
        ),
        shared.attacked(room, attacker, raw) == shared,
{
    lemma_with_same_room(shared, room);
}

/// An attack that leaves the opponent without hit points finishes the room,
/// and a finished room stays finished under every attack.
pub proof fn law_finished_is_final(room: RoomView, attacker: PlayerId, raw: int)
    requires
        room.wf(),
    ensures
        room.attack_result(attacker, raw) matches Ok(Some(_)) ==> room.attacked(
            attacker,
            raw,
        ).finished,
        room.finished ==> room.attacked(attacker, raw) == room,
{
}

/// A broadcast puts the message at the end of the queue of every player of
/// the room but the excluded one, and changes no other queue, in that room or
/// in any other. It moves nobody in or out of a room.
pub proof fn law_broadcast_reaches_the_others(
    shared: SharedView,
    room: Seq<char>,
    exclude: PlayerId,
    message: Seq<char>,
    other: Seq<char>,
    id: PlayerId,
)
    requires
        shared.wf(),
    ensures
        shared.relayed(room, exclude, message).room(other).has(id) == shared.room(other).has(id),
        shared.relayed(room, exclude, message).room(other).pending(id) == if other == room
            && shared.room(room).has(id) && id != exclude {
            shared.room(room).pending(id).push(message)
        } else {
            shared.room(other).pending(id)
        },
{
    lemma_room_wf(shared, room);
    let before = shared.room(room);
    let after = before.relayed(exclude, message);
    lemma_relayed_wf(before, exclude, message);
    lemma_with_room(shared, after);
    lemma_same_players_wf(before, after);
    if other == room && before.has(id) {
        let k = before.position(id);
        assert(after.position(id) == k);
    }
}

/// A malformed line in a combat room changes nothing and leaves the
/// connection open.
pub proof fn law_malformed_line_is_ignored(shared: SharedView, peer: PeerView, line: Seq<char>)
    requires
        shared.variant == Variant::Combat,
    ensures
        handled(shared, peer, line, Command::Malformed).shared == shared,
        handled(shared, peer, line, Command::Malformed).connection == (ConnectionView::Joined {
            peer,
        }),
        handled(shared, peer, line, Command::Malformed).reply == ReplyView::silent(),
{
}

/// The registry after the member `peer` has gone is well-formed.
proof fn lemma_departed_wf(shared: SharedView, peer: PeerView)
    requires
        shared.wf(),
    ensures
        departed(shared, peer).wf(),
{
    let gone = served(shared, Request::Leave { room: peer.room, id: peer.id });
    law_served_keeps_invariant(shared, Request::Leave { room: peer.room, id: peer.id });
    law_served_keeps_invariant(
        gone,
        Request::Broadcast {
            room: peer.room,
            exclude: peer.id,
            message: left_notice(peer.name, peer.room),
        },
    );
}

/// Whatever happens on a connection, a well-formed registry stays
/// well-formed: the protocol never fills a room beyond its capacity.
pub proof fn law_step_keeps_invariant(
    shared: SharedView,
    connection: ConnectionView,
    event: EventView,
    fresh: PlayerId,
)
    requires
        shared.wf(),
    ensures
        step(shared, connection, event, fresh).shared.wf(),
{
    match (connection, event) {
        (ConnectionView::AwaitingName { room }, EventView::Line(name)) => {
            let after = served(shared, Request::Join { room, name, id: fresh });
            law_served_keeps_invariant(shared, Request::Join { room, name, id: fresh });
            let peer = PeerView { room, name, id: fresh };
            match after.variant {
                Variant::Chat => {
                    law_served_keeps_invariant(
                        after,
                        Request::Broadcast {
                            room,
                            exclude: fresh,
                            message: joined_notice(name, room),
                        },
                    );
                },
                Variant::Combat => {
                    if after.room(room).turn is Some {
                        law_served_keeps_invariant(
                            after,
                            Request::Notify {
                                room,
                                to: after.room(room).turn->0,
                                message: YOUR_TURN@,
                            },
                        );
                    }
                },
            }
            assert(welcomed(after, peer).wf());
        },
        (ConnectionView::Joined { peer }, EventView::Line(line)) => {
            let command = command_of(line);
            match shared.variant {
                Variant::Chat => {
                    law_served_keeps_invariant(
                        shared,
                        Request::Broadcast {
                            room: peer.room,
                            exclude: peer.id,
                            message: chat_line(peer.name, line),
                        },
                    );
                },
                Variant::Combat => match command {
                    Command::Say => {
                        law_served_keeps_invariant(
                            shared,
                            Request::Broadcast { room: peer.room, exclude: peer.id, message: line },
                        );
                    },
                    Command::Malformed => {},
                    Command::Attack(raw) => {
                        lemma_fought_wf(shared, peer, raw as int);
                    },
                },
            }
        },
        (ConnectionView::Joined { peer }, EventView::Disconnected) => {
            lemma_departed_wf(shared, peer);
        },
        (_, _) => {},
    }
}

/// The registry after an attack of a member was dealt with is well-formed.
proof fn lemma_fought_wf(shared: SharedView, peer: PeerView, raw: int)
    requires
        shared.wf(),
    ensures
        fought(shared, peer, raw).shared.wf(),
{
    let hit = served(shared, Request::Attack { room: peer.room, attacker: peer.id, raw });
    law_served_keeps_invariant(shared, Request::Attack { room: peer.room, attacker: peer.id, raw });
    match shared.room(peer.room).attack_result(peer.id, raw) {
        Err(_) => {},
        Ok(None) => {
            let passed = served(hit, Request::NextTurn { room: peer.room });
            law_served_keeps_invariant(hit, Request::NextTurn { room: peer.room });
            law_served_keeps_invariant(
                passed,
                Request::Broadcast { room: peer.room, exclude: peer.id, message: NEXT_TURN@ },
            );
        },
        Ok(Some(announcement)) => {
            let told = served(
                hit,
                Request::Broadcast { room: peer.room, exclude: peer.id, message: announcement },
            );
            law_served_keeps_invariant(
                hit,
                Request::Broadcast { room: peer.room, exclude: peer.id, message: announcement },
            );
            lemma_departed_wf(told, peer);
        },
    }
}

/// An accepted attack that leaves the opponent standing is followed by the
/// opponent's turn, and the fight goes on.
pub proof fn law_accepted_attack_passes_the_turn(shared: SharedView, peer: PeerView, raw: int)
    requires
        shared.wf(),
        shared.room(peer.room).attack_result(peer.id, raw) == Ok::<
            Option<Seq<char>>,
            TurnViolation,
        >(None),
    ensures
        fought(shared, peer, raw).shared.room(peer.room).in_progress(),
        fought(shared, peer, raw).shared.room(peer.room).turn == Some(
            shared.room(peer.room).peers[shared.room(peer.room).opponent(peer.id)].id,
        ),
        fought(shared, peer, raw).shared.room(peer.room).turn != Some(peer.id),
{
    let before = shared.room(peer.room);
    lemma_room_wf(shared, peer.room);
    let a = before.position(peer.id);
    let d = before.opponent(peer.id);
    assert(0 <= a < 2 && before.peers[a].id == peer.id);
    let struck = before.attacked(peer.id, raw);
    lemma_attacked_wf(before, peer.id, raw);
    lemma_with_room(shared, struck);
    let hit = shared.attacked(peer.room, peer.id, raw);
    assert(hit.room(peer.room) == struck);
    assert(struck.peers[a].id == peer.id);
    lemma_position(struck, a);
    let turned = struck.rotated();
    lemma_rotated_wf(struck);
    lemma_with_room(hit, turned);
    let passed = hit.rotated(peer.room);
    assert(passed.room(peer.room) == turned);
    assert(turned.turn == Some(struck.peers[d].id));
    let told = turned.relayed(peer.id, NEXT_TURN@);
    lemma_relayed_wf(turned, peer.id, NEXT_TURN@);
    lemma_with_room(passed, told);
    if d < a {
        assert(before.peers[d].id != before.peers[a].id);
    } else {
        assert(before.peers[a].id != before.peers[d].id);
    }
}

/// No request raises the hit points of a player who is in the room before
/// and after it.
pub proof fn law_hit_points_never_rise(
    shared: SharedView,
    request: Request,
    room: Seq<char>,
    id: PlayerId,
)
    requires
        shared.wf(),
        shared.room(room).has(id),
        served(shared, request).room(room).has(id),
    ensures
        served(shared, request).room(room).player(id).hp <= shared.room(room).player(id).hp,
{
    let before = shared.room(room);
    let after = served(shared, request).room(room);
    lemma_room_wf(shared, room);
    law_served_keeps_invariant(shared, request);
    lemma_room_wf(served(shared, request), room);
    let k = before.position(id);
    lemma_position(before, k);
    match request {
        Request::Join { room: r, name, id: newcomer } => {
            lemma_room_wf(shared, r);
            lemma_joined_wf(shared.room(r), name, newcomer);
            lemma_with_room(shared, shared.room(r).joined(name, newcomer));
            if r == room {
                assert(after.peers[k] == before.peers[k]);
                lemma_position(after, k);
            }
        },
        Request::Leave { room: r, id: leaver } => {
            lemma_room_wf(shared, r);
            lemma_left_wf(shared.room(r), leaver);
            lemma_with_room(shared, shared.room(r).left(leaver));
            if r == room && before.has(leaver) {
                let gone = before.position(leaver);
                assert(gone != k);
                let j = if k < gone { k } else { k - 1 };
                assert(after.peers[j] == before.peers[k]);
                lemma_position(after, j);
            }
        },
        Request::Broadcast { room: r, exclude, message } => {
            lemma_room_wf(shared, r);
            lemma_relayed_wf(shared.room(r), exclude, message);
            lemma_with_room(shared, shared.room(r).relayed(exclude, message));
            if r == room {
                assert(after.peers[k].id == id);
                lemma_position(after, k);
            }
        },
        Request::Notify { room: r, to, message } => {
            lemma_room_wf(shared, r);
            lemma_notified_wf(shared.room(r), to, message);
            lemma_with_room(shared, shared.room(r).notified(to, message));
            if r == room {
                assert(after.peers[k].id == id);
                lemma_position(after, k);
            }
        },
        Request::TakeOutbound { room: r, of } => {
            lemma_room_wf(shared, r);
            lemma_drained_wf(shared.room(r), of);
            lemma_with_room(shared, shared.room(r).drained(of));
            if r == room {
                assert(after.peers[k].id == id);
                lemma_position(after, k);
            }
        },
        Request::NextTurn { room: r } => {
            lemma_room_wf(shared, r);
            lemma_rotated_wf(shared.room(r));
            lemma_with_room(shared, shared.room(r).rotated());
        },
        Request::Attack { room: r, attacker, raw } => {
            lemma_room_wf(shared, r);
            lemma_attacked_wf(shared.room(r), attacker, raw);
            lemma_with_room(shared, shared.room(r).attacked(attacker, raw));
            if r == room {
                law_attack_hurts_only_the_opponent(before, attacker, raw, k);
                assert(after.peers[k].id == id);
                lemma_position(after, k);
            }
        },
    }
}

} // verus!
