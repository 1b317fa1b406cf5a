//! The mathematical model of players and rooms: what a room is, and what each
//! operation makes of it. The executable types are stated against this model.

use vstd::prelude::*;
use crate::ident::PlayerId;

verus! {

/// Hit points a player starts with.
pub const INITIAL_HP: i64 = 10;

/// Defense a player starts with.
pub const INITIAL_DEFENSE: i64 = 10;

/// Which protocol the rooms of a registry speak.
#[derive(Clone, Copy, Debug, PartialEq, Eq, Structural)]
pub enum Variant {
    /// A plain relay of text lines.
    Chat,
    /// Two players take turns attacking each other.
    Combat,
}

/// Where a room stands in its life cycle.
#[derive(Clone, Copy, Debug, PartialEq, Eq, Structural)]
pub enum Phase {
    /// Nobody is in the room.
    Empty,
    /// The room has members, but no fight is running.
    WaitingForSecondPlayer,
    /// Two players fight; the named one may attack next.
    InProgress(PlayerId),
    /// A player has lost. No further attack is accepted.
    Finished,
}

/// Why a join was turned down.
#[derive(Clone, Copy, Debug, PartialEq, Eq, Structural)]
pub enum RejectReason {
    /// The room already holds as many players as it may.
    RoomFull,
    /// A player with the offered identifier is already in the room.
    DuplicateId,
}

/// The answer to a join request.
#[derive(Clone, Copy, Debug, PartialEq, Eq, Structural)]
pub enum JoinResult {
    /// The player is now in the room under this identifier.
    Joined(PlayerId),
    /// The room is unchanged.
    Rejected(RejectReason),
}

/// Why an attack was turned down.
#[derive(Clone, Copy, Debug, PartialEq, Eq, Structural)]
pub enum TurnViolation {
    /// The room is not in a running fight between two players.
    RoomNotInProgress,
    /// Somebody else holds the turn.
    NotTurnHolder,
}

/// A player as the contracts see it.
pub struct PlayerView {
    pub id: PlayerId,
    pub name: Seq<char>,
    /// Messages waiting to be written to this player's connection, oldest first.
    pub outbound: Seq<Seq<char>>,
    pub hp: int,
    pub defense: int,
}

/// A room as the contracts see it. `peers` is in the order of joining.
pub struct RoomView {
    pub name: Seq<char>,
    pub peers: Seq<PlayerView>,
    pub turn: Option<PlayerId>,
    pub capacity: nat,
    pub finished: bool,
    pub variant: Variant,
}

/// The damage that an attack of strength `raw` does to a defense: the excess
/// of the one over the other, never negative.
pub open spec fn damage(raw: int, defense: int) -> int {
    if raw > defense {
        raw - defense
    } else {
        0
    }
}

/// The announcement that the player called `name` has lost.
pub open spec fn loss_message(name: Seq<char>) -> Seq<char> {
    name + " has lost!"@
}

impl PlayerView {
    /// A player who has just joined.
    pub open spec fn newcomer(name: Seq<char>, id: PlayerId) -> PlayerView {
        PlayerView {
            id,
            name,
            outbound: Seq::empty(),
            hp: INITIAL_HP as int,
            defense: INITIAL_DEFENSE as int,
        }
    }

    /// This player with one more message waiting.
    pub open spec fn with_message(self, message: Seq<char>) -> PlayerView {
        PlayerView { outbound: self.outbound.push(message), ..self }
    }

    /// This player with another number of hit points.
    pub open spec fn with_hp(self, hp: int) -> PlayerView {
        PlayerView { hp, ..self }
    }

    /// This player with nothing waiting.
    pub open spec fn drained(self) -> PlayerView {
        PlayerView { outbound: Seq::empty(), ..self }
    }
}

impl RoomView {
    /// The room that nobody has entered yet.
    pub open spec fn fresh(name: Seq<char>, capacity: nat, variant: Variant) -> RoomView {
        RoomView { name, peers: Seq::empty(), turn: None, capacity, finished: false, variant }
    }

    /// Whether a player with this identifier is in the room.
    pub open spec fn has(self, id: PlayerId) -> bool {
        exists|i: int| 0 <= i < self.peers.len() && (#[trigger] self.peers[i]).id == id
    }

    /// The place of the player `id` in the order of joining.
    pub open spec fn position(self, id: PlayerId) -> int {
        choose|i: int| 0 <= i < self.peers.len() && (#[trigger] self.peers[i]).id == id
    }

    /// The player with this identifier.
    pub open spec fn player(self, id: PlayerId) -> PlayerView {
        self.peers[self.position(id)]
    }

    /// Whether the room holds as many players as it may.
    pub open spec fn is_full(self) -> bool {
        self.peers.len() >= self.capacity
    }

    /// The invariant of a room.
    pub open spec fn wf(self) -> bool {
        &&& self.peers.len() <= self.capacity
        &&& forall|i: int, j: int|
            0 <= i < j < self.peers.len() ==> (#[trigger] self.peers[i]).id != (
            #[trigger] self.peers[j]).id
        &&& (self.turn matches Some(t) ==> self.has(t))
        &&& forall|i: int| 0 <= i < self.peers.len() ==> (#[trigger] self.peers[i]).defense >= 0
        &&& (!self.finished ==> forall|i: int|
            0 <= i < self.peers.len() ==> (#[trigger] self.peers[i]).hp > 0)
        &&& (self.peers.len() == 0 ==> !self.finished)
    }

    /// Whether a fight is running: two players, a turn holder, nobody has lost.
    pub open spec fn in_progress(self) -> bool {
        &&& self.variant == Variant::Combat
        &&& !self.finished
        &&& self.peers.len() == 2
        &&& self.turn is Some
    }

    /// Where the room stands in its life cycle.
    pub open spec fn phase(self) -> Phase {
        if self.peers.len() == 0 {
            Phase::Empty
        } else if self.finished {
            Phase::Finished
        } else if self.in_progress() {
            Phase::InProgress(self.turn->0)
        } else {
            Phase::WaitingForSecondPlayer
        }
    }

    /// The answer that a join under `id` gets.
    pub open spec fn join_result(self, id: PlayerId) -> JoinResult {
        if self.is_full() {
            JoinResult::Rejected(RejectReason::RoomFull)
        } else if self.has(id) {
            JoinResult::Rejected(RejectReason::DuplicateId)
        } else {
            JoinResult::Joined(id)
        }
    }

    /// The room after `id` has joined under `name`. In a combat room the join
    /// that makes two players gives the turn to the one who came first.
    pub open spec fn admitted(self, name: Seq<char>, id: PlayerId) -> RoomView {
        let peers = self.peers.push(PlayerView::newcomer(name, id));
        let turn = if self.variant == Variant::Combat && peers.len() == 2 {
            Some(peers[0].id)
        } else {
            self.turn
        };
        RoomView { peers, turn, ..self }
    }

    /// The room after a join request: changed only if the request is granted.
    pub open spec fn joined(self, name: Seq<char>, id: PlayerId) -> RoomView {
        if self.join_result(id) is Joined {
            self.admitted(name, id)
        } else {
            self
        }
    }

    /// The room after `id` has left. A turn held by the leaver passes to the
    /// player who joined next after the leaver, the first one if there is none.
    /// The room that its last player leaves is as if nobody had ever entered.
    pub open spec fn left(self, id: PlayerId) -> RoomView {
        if !self.has(id) {
            self
        } else {
            let k = self.position(id);
            let peers = self.peers.remove(k);
            if peers.len() == 0 {
                RoomView::fresh(self.name, self.capacity, self.variant)
            } else {
                let turn = if self.turn == Some(id) {
                    Some(
                        peers[if k < peers.len() {
                            k
                        } else {
                            0
                        }].id,
                    )
                } else {
                    self.turn
                };
                RoomView { peers, turn, ..self }
            }
        }
    }

    /// The room after the turn has moved on by one place in the order of
    /// joining, from the last player back to the first. Where nobody holds the
    /// turn the first player gets it.
    pub open spec fn rotated(self) -> RoomView {
        if self.peers.len() == 0 {
            self
        } else {
            let next = match self.turn {
                Some(t) => (self.position(t) + 1) % (self.peers.len() as int),
                None => 0,
            };
            RoomView { turn: Some(self.peers[next].id), ..self }
        }
    }

    /// Why an attack by `attacker` is turned down, if it is.
    pub open spec fn violation(self, attacker: PlayerId) -> Option<TurnViolation> {
        if !self.in_progress() {
            Some(TurnViolation::RoomNotInProgress)
        } else if self.turn != Some(attacker) {
            Some(TurnViolation::NotTurnHolder)
        } else {
            None
        }
    }

    /// In a room of two, the place of the player that `attacker` fights.
    pub open spec fn opponent(self, attacker: PlayerId) -> int {
        1 - self.position(attacker)
    }

    /// The hit points left to the opponent of `attacker` after an attack of
    /// strength `raw`.
    pub open spec fn hp_after(self, attacker: PlayerId, raw: int) -> int {
        let target = self.peers[self.opponent(attacker)];
        target.hp - damage(raw, target.defense)
    }

    /// The room after an accepted attack: the opponent has lost hit points,
    /// and the fight is over once none are left.
    pub open spec fn struck(self, attacker: PlayerId, raw: int) -> RoomView {
        let d = self.opponent(attacker);
        let hp = self.hp_after(attacker, raw);
        RoomView {
            peers: self.peers.update(d, self.peers[d].with_hp(hp)),
            finished: hp <= 0,
            ..self
        }
    }

    /// The room after an attack request: changed only if the attack is accepted.
    pub open spec fn attacked(self, attacker: PlayerId, raw: int) -> RoomView {
        if self.violation(attacker) is None {
            self.struck(attacker, raw)
        } else {
            self
        }
    }

    /// What an attack request returns: the violation, or else the loss
    /// announcement if the opponent has no hit points left.
    pub open spec fn attack_result(self, attacker: PlayerId, raw: int) -> Result<
        Option<Seq<char>>,
        TurnViolation,
    > {
        match self.violation(attacker) {
            Some(v) => Err(v),
            None => if self.hp_after(attacker, raw) <= 0 {
                Ok(Some(loss_message(self.peers[self.opponent(attacker)].name)))
            } else {
                Ok(None)
            },
        }
    }

    /// The room after `message` was put into the queue of every player but
    /// `exclude`.
    pub open spec fn relayed(self, exclude: PlayerId, message: Seq<char>) -> RoomView {
        RoomView {
            peers: Seq::new(
                self.peers.len(),
                |i: int|
                    if self.peers[i].id == exclude {
                        self.peers[i]
                    } else {
                        self.peers[i].with_message(message)
                    },
            ),
            ..self
        }
    }

    /// The room after `message` was put into the queue of the player `to`.
    pub open spec fn notified(self, to: PlayerId, message: Seq<char>) -> RoomView {
        RoomView {
            peers: Seq::new(
                self.peers.len(),
                |i: int|
                    if self.peers[i].id == to {
                        self.peers[i].with_message(message)
                    } else {
                        self.peers[i]
                    },
            ),
            ..self
        }
    }

    /// The room after the queue of the player `of` was emptied.
    pub open spec fn drained(self, of: PlayerId) -> RoomView {
        RoomView {
            peers: Seq::new(
                self.peers.len(),
                |i: int|
                    if self.peers[i].id == of {
                        self.peers[i].drained()
                    } else {
                        self.peers[i]
                    },
            ),
            ..self
        }
    }

    /// What waits in the queue of the player `of`; nothing if there is no such
    /// player.
    pub open spec fn pending(self, of: PlayerId) -> Seq<Seq<char>> {
        if self.has(of) {
            self.player(of).outbound
        } else {
            Seq::empty()
        }
    }
}

/// In a well-formed room a player's identifier finds the player's place.
pub proof fn lemma_position(room: RoomView, i: int)
    requires
        room.wf(),
        0 <= i < room.peers.len(),
    ensures
        room.has(room.peers[i].id),
        room.position(room.peers[i].id) == i,
        room.player(room.peers[i].id) == room.peers[i],
{
    let id = room.peers[i].id;
    let k = room.position(id);
    assert(0 <= k < room.peers.len() && room.peers[k].id == id);
    if k < i {
        assert(room.peers[k].id != room.peers[i].id);
    } else if i < k {
        assert(room.peers[i].id != room.peers[k].id);
    }
}

/// A join request leaves a well-formed room well-formed.
pub proof fn lemma_joined_wf(room: RoomView, name: Seq<char>, id: PlayerId)
    requires
        room.wf(),
    ensures
        room.joined(name, id).wf(),
{
    if room.join_result(id) is Joined {
        let after = room.admitted(name, id);
        let n = room.peers.len() as int;
        assert(after.peers[n].id == id);
        assert forall|i: int, j: int| 0 <= i < j < after.peers.len() implies (
        #[trigger] after.peers[i]).id != (#[trigger] after.peers[j]).id by {
            if j == n {
                assert(after.peers[i] == room.peers[i]);
            } else {
                assert(after.peers[i] == room.peers[i]);
                assert(after.peers[j] == room.peers[j]);
            }
        }
        assert(after.turn matches Some(t) ==> after.has(t)) by {
            if after.turn is Some {
                let t = after.turn->0;
                if room.variant == Variant::Combat && after.peers.len() == 2 {
                    assert(after.peers[0].id == t);
                } else {
                    let k = room.position(t);
                    assert(after.peers[k] == room.peers[k]);
                }
            }
        }
        assert forall|i: int| 0 <= i < after.peers.len() implies (
        #[trigger] after.peers[i]).defense >= 0 by {
            if i < n {
                assert(after.peers[i] == room.peers[i]);
            }
        }
        if !after.finished {
            assert forall|i: int| 0 <= i < after.peers.len() implies (
            #[trigger] after.peers[i]).hp > 0 by {
                if i < n {
                    assert(after.peers[i] == room.peers[i]);
                }
            }
        }
    }
}

/// A leave keeps a well-formed room well-formed.
pub proof fn lemma_left_wf(room: RoomView, id: PlayerId)
    requires
        room.wf(),
    ensures
        room.left(id).wf(),
        room.left(id).peers.len() <= room.peers.len(),
        !room.left(id).has(id),
{
    if room.has(id) {
        let k = room.position(id);
        let peers = room.peers.remove(k);
        let after = room.left(id);
        assert forall|i: int| 0 <= i < peers.len() implies #[trigger] peers[i] == room.peers[if i
            < k {
            i
        } else {
            i + 1
        }] by {}
        if peers.len() > 0 {
            assert(after.peers == peers);
            assert forall|i: int, j: int| 0 <= i < j < peers.len() implies (#[trigger] peers[i]).id
                != (#[trigger] peers[j]).id by {
                let a = if i < k { i } else { i + 1 };
                let b = if j < k { j } else { j + 1 };
                assert(peers[i] == room.peers[a]);
                assert(peers[j] == room.peers[b]);
            }
            assert forall|i: int| 0 <= i < peers.len() implies (#[trigger] peers[i]).id != id by {
                let a = if i < k { i } else { i + 1 };
                assert(peers[i] == room.peers[a]);
                if a < k {
                    assert(room.peers[a].id != room.peers[k].id);
                } else {
                    assert(room.peers[k].id != room.peers[a].id);
                }
            }
            assert(after.turn matches Some(t) ==> after.has(t)) by {
                if after.turn is Some {
                    let t = after.turn->0;
                    if room.turn == Some(id) {
                        let m = if k < peers.len() { k } else { 0 };
                        assert(peers[m].id == t);
                    } else {
                        let q = room.position(t);
                        assert(q != k);
                        let m = if q < k { q } else { q - 1 };
                        assert(peers[m] == room.peers[q]);
                    }
                }
            }
            assert forall|i: int| 0 <= i < peers.len() implies (#[trigger] peers[i]).defense
                >= 0 by {
                let a = if i < k { i } else { i + 1 };
                assert(peers[i] == room.peers[a]);
            }
            if !after.finished {
                assert forall|i: int| 0 <= i < peers.len() implies (#[trigger] peers[i]).hp > 0 by {
                    let a = if i < k { i } else { i + 1 };
                    assert(peers[i] == room.peers[a]);
                }
            }
        }
    }
}

/// Moving the turn on keeps a well-formed room well-formed.
pub proof fn lemma_rotated_wf(room: RoomView)
    requires
        room.wf(),
    ensures
        room.rotated().wf(),
{
    if room.peers.len() > 0 {
        let after = room.rotated();
        let next = match room.turn {
            Some(t) => (room.position(t) + 1) % (room.peers.len() as int),
            None => 0,
        };
        assert(0 <= next < room.peers.len());
        assert(after.peers[next].id == after.turn->0);
    }
}

/// An attack request keeps a well-formed room well-formed.
pub proof fn lemma_attacked_wf(room: RoomView, attacker: PlayerId, raw: int)
    requires
        room.wf(),
    ensures
        room.attacked(attacker, raw).wf(),
{
    if room.violation(attacker) is None {
        let after = room.struck(attacker, raw);
        let a = room.position(attacker);
        let d = room.opponent(attacker);
        assert(0 <= a < 2);
        assert forall|i: int, j: int| 0 <= i < j < after.peers.len() implies (
        #[trigger] after.peers[i]).id != (#[trigger] after.peers[j]).id by {
            assert(after.peers[i].id == room.peers[i].id);
            assert(after.peers[j].id == room.peers[j].id);
        }
        assert(after.has(attacker)) by {
            assert(after.peers[a].id == attacker);
        }
        assert forall|i: int| 0 <= i < after.peers.len() implies (
        #[trigger] after.peers[i]).defense >= 0 by {
            assert(after.peers[i].defense == room.peers[i].defense);
        }
        if !after.finished {
            assert forall|i: int| 0 <= i < after.peers.len() implies (
            #[trigger] after.peers[i]).hp > 0 by {
                if i != d {
                    assert(after.peers[i] == room.peers[i]);
                }
            }
        }
    }
}

/// Queueing a message changes nobody's identity or hit points.
pub proof fn lemma_relayed_wf(room: RoomView, exclude: PlayerId, message: Seq<char>)
    requires
        room.wf(),
    ensures
        room.relayed(exclude, message).wf(),
{
    let after = room.relayed(exclude, message);
    lemma_same_players_wf(room, after);
}

/// Queueing a message for one player changes nobody's identity or hit points.
pub proof fn lemma_notified_wf(room: RoomView, to: PlayerId, message: Seq<char>)
    requires
        room.wf(),
    ensures
        room.notified(to, message).wf(),
{
    let after = room.notified(to, message);
    lemma_same_players_wf(room, after);
}

/// Emptying a queue changes nobody's identity or hit points.
pub proof fn lemma_drained_wf(room: RoomView, of: PlayerId)
    requires
        room.wf(),
    ensures
        room.drained(of).wf(),
{
    let after = room.drained(of);
    lemma_same_players_wf(room, after);
}

/// A room that differs from a well-formed one only in what waits in the
/// queues is well-formed.
pub proof fn lemma_same_players_wf(room: RoomView, after: RoomView)
    requires
        room.wf(),
        after.peers.len() == room.peers.len(),
        after.turn == room.turn,
        after.capacity == room.capacity,
        after.finished == room.finished,
        forall|i: int|
            0 <= i < room.peers.len() ==> {
                &&& (#[trigger] after.peers[i]).id == room.peers[i].id
                &&& after.peers[i].hp == room.peers[i].hp
                &&& after.peers[i].defense == room.peers[i].defense
            },
    ensures
        after.wf(),
        forall|id: PlayerId| after.has(id) == room.has(id),
        forall|id: PlayerId| room.has(id) ==> after.position(id) == room.position(id),
{
    assert forall|i: int, j: int| 0 <= i < j < after.peers.len() implies (
    #[trigger] after.peers[i]).id != (#[trigger] after.peers[j]).id by {
        assert(after.peers[i].id == room.peers[i].id);
        assert(after.peers[j].id == room.peers[j].id);
    }
    assert forall|id: PlayerId| after.has(id) == room.has(id) by {
        if room.has(id) {
            let k = room.position(id);
            assert(after.peers[k].id == id);
        }
        if after.has(id) {
            let k = after.position(id);
            assert(room.peers[k].id == id);
        }
    }
    assert forall|i: int| 0 <= i < after.peers.len() implies (#[trigger] after.peers[i]).defense
        >= 0 by {
        assert(after.peers[i].defense == room.peers[i].defense);
    }
    if !after.finished {
        assert forall|i: int| 0 <= i < after.peers.len() implies (#[trigger] after.peers[i]).hp
            > 0 by {
            assert(after.peers[i].hp == room.peers[i].hp);
        }
    }
    assert forall|id: PlayerId| room.has(id) implies after.position(id) == room.position(id) by {
        let k = room.position(id);
        assert(after.peers[k].id == id);
        let q = after.position(id);
        assert(room.peers[q].id == id);
        if q < k {
            assert(room.peers[q].id != room.peers[k].id);
        } else if k < q {
            assert(room.peers[k].id != room.peers[q].id);
        }
    }
}

} // verus!
