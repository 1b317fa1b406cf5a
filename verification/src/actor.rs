//! The protocol of one connection: the handshake, the join, what each line
//! of a member does to the room, and the departure. The functions here decide;
//! reading from and writing to the connection is the caller's part.

use vstd::prelude::*;
use vstd::string::*;
use crate::ident::PlayerId;
use crate::model::{JoinResult, Phase, RejectReason, TurnViolation, Variant};
use crate::payload::{classify, command_of, Command};
use crate::registry::{lemma_with_same_room, Shared, SharedView};
use crate::room::texts;

verus! {

/// Asks a new connection for the room.
pub const ROOM_PROMPT: &'static str = "Please enter your room name:";

/// Asks a new connection for the player's name.
pub const NAME_PROMPT: &'static str = "Please enter your username:";

/// Tells a client that the room is full.
pub const ROOM_FULL_NOTICE: &'static str = "No room in lobby";

/// Tells a client that its identifier is taken.
pub const DUPLICATE_NOTICE: &'static str = "Identifier already in use";

/// Tells a player that the turn is theirs.
pub const YOUR_TURN: &'static str = "Your turn";

/// Tells the room that the turn has moved on.
pub const NEXT_TURN: &'static str = "next turn";

/// Tells a player that no fight is running in the room.
pub const NO_FIGHT_NOTICE: &'static str = "No fight is in progress";

/// Tells a player that somebody else holds the turn.
pub const NOT_YOUR_TURN_NOTICE: &'static str = "It is not your turn";

/// The announcement that `name` has joined `room`.
pub open spec fn joined_notice(name: Seq<char>, room: Seq<char>) -> Seq<char> {
    name + " has joined the room "@ + room
}

/// The announcement that `name` has left `room`.
pub open spec fn left_notice(name: Seq<char>, room: Seq<char>) -> Seq<char> {
    name + " has left the room "@ + room
}

/// A line of chat as the room sees it.
pub open spec fn chat_line(name: Seq<char>, line: Seq<char>) -> Seq<char> {
    name + ": "@ + line
}

/// What a player is told whose attack was turned down.
pub open spec fn violation_notice(violation: TurnViolation) -> Seq<char> {
    match violation {
        TurnViolation::RoomNotInProgress => NO_FIGHT_NOTICE@,
        TurnViolation::NotTurnHolder => NOT_YOUR_TURN_NOTICE@,
    }
}

/// What a client is told whose join was turned down.
pub open spec fn rejection_notice(reason: RejectReason) -> Seq<char> {
    match reason {
        RejectReason::RoomFull => ROOM_FULL_NOTICE@,
        RejectReason::DuplicateId => DUPLICATE_NOTICE@,
    }
}

/// A member's handle on its room, as the contracts see it.
pub struct PeerView {
    pub room: Seq<char>,
    pub name: Seq<char>,
    pub id: PlayerId,
}

/// What goes back to the connection, as the contracts see it.
pub struct ReplyView {
    /// Lines to write to the client, in order.
    pub lines: Seq<Seq<char>>,
    /// Whether the connection is to be closed after that.
    pub close: bool,
}

/// How far a connection has come, as the contracts see it.
pub enum ConnectionView {
    AwaitingRoom,
    AwaitingName { room: Seq<char> },
    Joined { peer: PeerView },
    Closed,
}

/// What happened on a connection, as the contracts see it.
pub enum EventView {
    Line(Seq<char>),
    Disconnected,
}

/// What one step makes of the registry and of the connection, and what goes
/// back to the client.
pub struct Step {
    pub shared: SharedView,
    pub connection: ConnectionView,
    pub reply: ReplyView,
}

impl ReplyView {
    /// Nothing to write; the connection stays open.
    pub open spec fn silent() -> ReplyView {
        ReplyView { lines: Seq::empty(), close: false }
    }

    /// One line to write; the connection stays open.
    pub open spec fn say(line: Seq<char>) -> ReplyView {
        ReplyView { lines: seq![line], close: false }
    }

    /// Nothing to write; the connection is to be closed.
    pub open spec fn hang_up() -> ReplyView {
        ReplyView { lines: Seq::empty(), close: true }
    }

    /// One line to write, then the connection is to be closed.
    pub open spec fn dismiss(line: Seq<char>) -> ReplyView {
        ReplyView { lines: seq![line], close: true }
    }
}

/// The registry after the member `peer` has gone: the player has left, and
/// those who stay have the departure notice in their queues.
pub open spec fn departed(shared: SharedView, peer: PeerView) -> SharedView {
    shared.left(peer.room, peer.id).relayed(peer.room, peer.id, left_notice(peer.name, peer.room))
}

/// The registry after a granted join was made known. A chat room hears the
/// announcement. In a combat room, if the join has started a fight, the turn
/// holder is told so, unless that is the newcomer.
pub open spec fn welcomed(shared: SharedView, peer: PeerView) -> SharedView {
    match shared.variant {
        Variant::Chat => shared.relayed(peer.room, peer.id, joined_notice(peer.name, peer.room)),
        Variant::Combat => {
            let room = shared.room(peer.room);
            if room.in_progress() && room.turn != Some(peer.id) {
                shared.notified(peer.room, room.turn->0, YOUR_TURN@)
            } else {
                shared
            }
        },
    }
}

/// What a client is told whose join was granted: that the turn is theirs, if
/// the join has started a fight in which they hold it.
pub open spec fn welcome(shared: SharedView, peer: PeerView) -> ReplyView {
    let room = shared.room(peer.room);
    if shared.variant == Variant::Combat && room.in_progress() && room.turn == Some(peer.id) {
        ReplyView::say(YOUR_TURN@)
    } else {
        ReplyView::silent()
    }
}

/// The step in which the client that gave `room` and `name` asks to join
/// under `id`.
pub open spec fn entered(shared: SharedView, room: Seq<char>, name: Seq<char>, id: PlayerId)
    -> Step {
    match shared.room(room).join_result(id) {
        JoinResult::Rejected(reason) => Step {
            shared,
            connection: ConnectionView::Closed,
            reply: ReplyView::dismiss(rejection_notice(reason)),
        },
        JoinResult::Joined(_) => {
            let peer = PeerView { room, name, id };
            let after = shared.joined(room, name, id);
            Step {
                shared: welcomed(after, peer),
                connection: ConnectionView::Joined { peer },
                reply: welcome(after, peer),
            }
        },
    }
}

/// The step in which the member `peer` sends an attack of strength `raw`.
pub open spec fn fought(shared: SharedView, peer: PeerView, raw: int) -> Step {
    match shared.room(peer.room).attack_result(peer.id, raw) {
        Err(violation) => Step {
            shared,
            connection: ConnectionView::Joined { peer },
            reply: ReplyView::say(violation_notice(violation)),
        },
        Ok(None) => Step {
            shared: shared.attacked(peer.room, peer.id, raw).rotated(peer.room).relayed(
                peer.room,
                peer.id,
                NEXT_TURN@,
            ),
            connection: ConnectionView::Joined { peer },
            reply: ReplyView::silent(),
        },
        Ok(Some(announcement)) => Step {
            shared: departed(
                shared.attacked(peer.room, peer.id, raw).relayed(peer.room, peer.id, announcement),
                peer,
            ),
            connection: ConnectionView::Closed,
            reply: ReplyView::hang_up(),
        },
    }
}

/// The step in which the member `peer` sends `line`, which asks for
/// `command`.
pub open spec fn handled(shared: SharedView, peer: PeerView, line: Seq<char>, command: Command)
    -> Step {
    match shared.variant {
        Variant::Chat => Step {
            shared: shared.relayed(peer.room, peer.id, chat_line(peer.name, line)),
            connection: ConnectionView::Joined { peer },
            reply: ReplyView::silent(),
        },
        Variant::Combat => match command {
            Command::Say => Step {
                shared: shared.relayed(peer.room, peer.id, line),
                connection: ConnectionView::Joined { peer },
                reply: ReplyView::silent(),
            },
            Command::Malformed => Step {
                shared,
                connection: ConnectionView::Joined { peer },
                reply: ReplyView::silent(),
            },
            Command::Attack(raw) => fought(shared, peer, raw as int),
        },
    }
}

/// What an event makes of the registry and of a connection. `fresh` is the
/// identifier that a join in this step would use.
pub open spec fn step(
    shared: SharedView,
    connection: ConnectionView,
    event: EventView,
    fresh: PlayerId,
) -> Step {
    match (connection, event) {
        (ConnectionView::AwaitingRoom, EventView::Line(line)) => Step {
            shared,
            connection: ConnectionView::AwaitingName { room: line },
            reply: ReplyView::say(NAME_PROMPT@),
        },
        (ConnectionView::AwaitingName { room }, EventView::Line(line)) => entered(
            shared,
            room,
            line,
            fresh,
        ),
        (ConnectionView::Joined { peer }, EventView::Line(line)) => handled(
            shared,
            peer,
            line,
            command_of(line),
        ),
        (ConnectionView::Joined { peer }, EventView::Disconnected) => Step {
            shared: departed(shared, peer),
            connection: ConnectionView::Closed,
            reply: ReplyView::hang_up(),
        },
        (_, _) => Step { shared, connection: ConnectionView::Closed, reply: ReplyView::hang_up() },
    }
}

/// What goes back to the connection after a step.
pub struct Reply {
    /// Lines to write to the client, in order.
    pub lines: Vec<String>,
    /// Whether the connection is to be closed after that.
    pub close: bool,
}

impl View for Reply {
    type V = ReplyView;

    open spec fn view(&self) -> ReplyView {
        ReplyView { lines: texts(self.lines@), close: self.close }
    }
}

impl Reply {
    fn silent() -> (reply: Reply)
        ensures
            reply@ == ReplyView::silent(),
    {
        let reply = Reply { lines: Vec::new(), close: false };
        assert(reply@.lines =~= Seq::<Seq<char>>::empty());
        reply
    }

    fn hang_up() -> (reply: Reply)
        ensures
            reply@ == ReplyView::hang_up(),
    {
        let reply = Reply { lines: Vec::new(), close: true };
        assert(reply@.lines =~= Seq::<Seq<char>>::empty());
        reply
    }

    fn say(line: &str) -> (reply: Reply)
        ensures
            reply@ == ReplyView::say(line@),
    {
        let mut lines: Vec<String> = Vec::new();
        lines.push(line.to_owned());
        let reply = Reply { lines, close: false };
        assert(reply@.lines =~= seq![line@]);
        reply
    }

    fn dismiss(line: &str) -> (reply: Reply)
        ensures
            reply@ == ReplyView::dismiss(line@),
    {
        let mut lines: Vec<String> = Vec::new();
        lines.push(line.to_owned());
        let reply = Reply { lines, close: true };
        assert(reply@.lines =~= seq![line@]);
        reply
    }
}

/// A member's handle on its room: what a connection keeps once it has joined.
pub struct Peer {
    room: String,
    name: String,
    id: PlayerId,
}

impl View for Peer {
    type V = PeerView;

    closed spec fn view(&self) -> PeerView {
        PeerView { room: self.room@, name: self.name@, id: self.id }
    }
}

/// The state of the connection that holds `peer`, or of one that holds none.
pub open spec fn connection_of(peer: Option<Peer>) -> ConnectionView {
    match peer {
        Some(p) => ConnectionView::Joined { peer: p@ },
        None => ConnectionView::Closed,
    }
}

impl Peer {
    /// Asks for a place in `room_name` for a player called `user_name`, under
    /// the identifier `id`.
    ///
    /// If the room is full, or holds that identifier already, nothing changes
    /// and the reply dismisses the client. Otherwise the player is in the
    /// room. A chat room then hears the announcement. In a combat room, a
    /// join that starts a fight has the turn holder told so.
    pub fn new(state: &mut Shared, room_name: &str, user_name: &str, id: PlayerId) -> (result: (
        Option<Peer>,
        Reply,
    ))
        requires
            old(state).wf(),
        ensures
            final(state).wf(),
            final(state)@ == entered(old(state)@, room_name@, user_name@, id).shared,
            connection_of(result.0) == entered(old(state)@, room_name@, user_name@, id).connection,
            result.1@ == entered(old(state)@, room_name@, user_name@, id).reply,
    {
        proof {
            state.lemma_wf();
            lemma_with_same_room(state@, room_name@);
        }
        match state.join_with_id(room_name, user_name, id) {
            JoinResult::Rejected(reason) => {
                let notice = match reason {
                    RejectReason::RoomFull => ROOM_FULL_NOTICE,
                    RejectReason::DuplicateId => DUPLICATE_NOTICE,
                };
                (None, Reply::dismiss(notice))
            },
            JoinResult::Joined(_) => {
                let peer = Peer { room: room_name.to_owned(), name: user_name.to_owned(), id };
                let reply = match state.variant() {
                    Variant::Chat => {
                        let mut notice = user_name.to_owned();
                        notice.append(" has joined the room ");
                        notice.append(room_name);
                        state.broadcast(room_name, id, notice.as_str());
                        Reply::silent()
                    },
                    Variant::Combat => {
                        match state.phase(room_name) {
                            Phase::InProgress(holder) => {
                                if holder == id {
                                    Reply::say(YOUR_TURN)
                                } else {
                                    state.notify(room_name, holder, YOUR_TURN);
                                    Reply::silent()
                                }
                            },
                            _ => Reply::silent(),
                        }
                    },
                };
                (Some(peer), reply)
            },
        }
    }

    /// The name of the room.
    pub fn room(&self) -> (room: &String)
        ensures
            room@ == self@.room,
    {
        &self.room
    }

    /// The name of the player.
    pub fn name(&self) -> (name: &String)
        ensures
            name@ == self@.name,
    {
        &self.name
    }

    /// The identifier of the player.
    pub fn id(&self) -> (id: PlayerId)
        ensures
            id == self@.id,
    {
        self.id
    }

    /// Takes what waits for this member, oldest first.
    pub fn take_outbound(&self, state: &mut Shared) -> (lines: Vec<String>)
        requires
            old(state).wf(),
        ensures
            final(state).wf(),
            texts(lines@) == old(state)@.room(self@.room).pending(self@.id),
            final(state)@ == old(state)@.drained(self@.room, self@.id),
    {
        state.take_outbound(self.room.as_str(), self.id)
    }

    /// Takes this member out of its room and tells those who stay.
    pub fn depart(&self, state: &mut Shared)
        requires
            old(state).wf(),
        ensures
            final(state).wf(),
            final(state)@ == departed(old(state)@, self@),
    {
        state.leave(self.room.as_str(), self.id);
        let mut notice = self.name.clone();
        notice.append(" has left the room ");
        notice.append(self.room.as_str());
        state.broadcast(self.room.as_str(), self.id, notice.as_str());
    }

    /// Resolves an attack of strength `raw` by this member.
    ///
    /// A rejected attack changes nothing and is answered with the reason. An
    /// accepted one that leaves the opponent standing passes the turn on and
    /// tells the room. One that does not has the loss announced, and this
    /// member leaves: the reply closes the connection.
    fn fight(&self, state: &mut Shared, raw: i64) -> (reply: Reply)
        requires
            old(state).wf(),
        ensures
            final(state).wf(),
            final(state)@ == fought(old(state)@, self@, raw as int).shared,
            reply@ == fought(old(state)@, self@, raw as int).reply,
            reply.close == (fought(old(state)@, self@, raw as int).connection is Closed),
    {
        proof {
            state.lemma_wf();
            lemma_with_same_room(state@, self@.room);
        }
        match state.apply_attack(self.room.as_str(), self.id, raw) {
            Err(violation) => {
                let notice = match violation {
                    TurnViolation::RoomNotInProgress => NO_FIGHT_NOTICE,
                    TurnViolation::NotTurnHolder => NOT_YOUR_TURN_NOTICE,
                };
                Reply::say(notice)
            },
            Ok(None) => {
                state.next_turn(self.room.as_str());
                state.broadcast(self.room.as_str(), self.id, NEXT_TURN);
                Reply::silent()
            },
            Ok(Some(announcement)) => {
                state.broadcast(self.room.as_str(), self.id, announcement.as_str());
                self.depart(state);
                Reply::hang_up()
            },
        }
    }

    /// Does what a line of this member asks for, `command` being what the
    /// line was read as.
    ///
    /// In a chat room the line goes to the others under the sender's name,
    /// whatever it was read as. In a combat room plain text goes to the
    /// others as it is, a malformed line is ignored, and an attack is
    /// resolved.
    pub fn handle(&self, state: &mut Shared, line: &str, command: Command) -> (reply: Reply)
        requires
            old(state).wf(),
        ensures
            final(state).wf(),
            final(state)@ == handled(old(state)@, self@, line@, command).shared,
            reply@ == handled(old(state)@, self@, line@, command).reply,
            reply.close == (handled(old(state)@, self@, line@, command).connection is Closed),
    {
        match state.variant() {
            Variant::Chat => {
                let mut text = self.name.clone();
                text.append(": ");
                text.append(line);
                state.broadcast(self.room.as_str(), self.id, text.as_str());
                Reply::silent()
            },
            Variant::Combat => match command {
                Command::Say => {
                    state.broadcast(self.room.as_str(), self.id, line);
                    Reply::silent()
                },
                Command::Malformed => Reply::silent(),
                Command::Attack(raw) => self.fight(state, raw),
            },
        }
    }
}

/// How far a connection has come.
pub enum Connection {
    /// The room prompt is out; the next line names the room.
    AwaitingRoom,
    /// The name prompt is out; the next line names the player.
    AwaitingName { room: String },
    /// The player is in a room.
    Joined { peer: Peer },
    /// The connection is over.
    Closed,
}

impl View for Connection {
    type V = ConnectionView;

    open spec fn view(&self) -> ConnectionView {
        match self {
            Connection::AwaitingRoom => ConnectionView::AwaitingRoom,
            Connection::AwaitingName { room } => ConnectionView::AwaitingName { room: room@ },
            Connection::Joined { peer } => ConnectionView::Joined { peer: peer@ },
            Connection::Closed => ConnectionView::Closed,
        }
    }
}

/// What happened on a connection.
pub enum Event {
    /// The client has sent a line.
    Line(String),
    /// The client is gone.
    Disconnected,
}

impl View for Event {
    type V = EventView;

    open spec fn view(&self) -> EventView {
        match self {
            Event::Line(line) => EventView::Line(line@),
            Event::Disconnected => EventView::Disconnected,
        }
    }
}

/// Starts the protocol on a new connection: the state to begin in, and the
/// prompt for the room.
pub fn connect() -> (start: (Connection, Reply))
    ensures
        start.0@ == ConnectionView::AwaitingRoom,
        start.1@ == ReplyView::say(ROOM_PROMPT@),
{
    (Connection::AwaitingRoom, Reply::say(ROOM_PROMPT))
}

/// Takes one step of the protocol: applies `event` to the registry and to
/// `connection`, and returns what is to go back to the client. A join in this
/// step uses the identifier `fresh`.
pub fn process_with_id(
    state: &mut Shared,
    connection: &mut Connection,
    event: Event,
    fresh: PlayerId,
) -> (reply: Reply)
    requires
        old(state).wf(),
    ensures
        final(state).wf(),
        final(state)@ == step(old(state)@, old(connection)@, event@, fresh).shared,
        final(connection)@ == step(old(state)@, old(connection)@, event@, fresh).connection,
        reply@ == step(old(state)@, old(connection)@, event@, fresh).reply,
{
    let mut current = Connection::Closed;
    std::mem::swap(connection, &mut current);
    match (current, event) {
        (Connection::AwaitingRoom, Event::Line(line)) => {
            *connection = Connection::AwaitingName { room: line };
            Reply::say(NAME_PROMPT)
        },
        (Connection::AwaitingName { room }, Event::Line(line)) => {
            let (peer, reply) = Peer::new(state, room.as_str(), line.as_str(), fresh);
            match peer {
                Some(peer) => {
                    *connection = Connection::Joined { peer };
                },
                None => {},
            }
            reply
        },
        (Connection::Joined { peer }, Event::Line(line)) => {
            let command = classify(line.as_str());
            let reply = peer.handle(state, line.as_str(), command);
            if !reply.close {
                *connection = Connection::Joined { peer };
            }
            reply
        },
        (Connection::Joined { peer }, Event::Disconnected) => {
            peer.depart(state);
            Reply::hang_up()
        },
        (_, _) => Reply::hang_up(),
    }
}

/// Takes one step of the protocol: applies `event` to the registry and to
/// `connection`, and returns what is to go back to the client. A join in this
/// step uses an identifier minted for the occasion.
pub fn process(state: &mut Shared, connection: &mut Connection, event: Event) -> (reply: Reply)
    requires
        old(state).wf(),
    ensures
        final(state).wf(),
        exists|fresh: PlayerId|
            {
                &&& fresh.is_random_form()
                &&& final(state)@ == (#[trigger] step(
                    old(state)@,
                    old(connection)@,
                    event@,
                    fresh,
                )).shared
                &&& final(connection)@ == step(old(state)@, old(connection)@, event@, fresh).connection
                &&& reply@ == step(old(state)@, old(connection)@, event@, fresh).reply
            },
{
    let joins = match (&*connection, &event) {
        (Connection::AwaitingName { .. }, Event::Line(_)) => true,
        _ => false,
    };
    if joins {
        let fresh = PlayerId::mint();
        process_with_id(state, connection, event, fresh)
    } else {
        // Nobody joins in this step, so no identifier is minted for it.
        let unused = PlayerId::from_u128(0x0000_0000_0000_4000_8000_0000_0000_0000u128);
        assert(unused.is_random_form()) by {
            assert(0x0000_0000_0000_4000_8000_0000_0000_0000u128
                & 0x0000_0000_0000_f000_c000_0000_0000_0000u128
                == 0x0000_0000_0000_4000_8000_0000_0000_0000u128) by (bit_vector);
        }
        process_with_id(state, connection, event, unused)
    }
}

} // verus!
