//! Players and rooms as they are held in memory.

use vstd::prelude::*;
use vstd::string::*;
use crate::ident::PlayerId;
use crate::model::{
    lemma_attacked_wf, lemma_drained_wf, lemma_joined_wf, lemma_left_wf, lemma_notified_wf,
    lemma_position, lemma_relayed_wf, lemma_rotated_wf, JoinResult, Phase, PlayerView,
    RejectReason, RoomView, TurnViolation, Variant, INITIAL_DEFENSE, INITIAL_HP,
};

verus! {

/// What a list of strings says, string by string.
pub open spec fn texts(lines: Seq<String>) -> Seq<Seq<char>> {
    Seq::new(lines.len(), |i: int| lines[i]@)
}

/// What the answer to an attack says, the announcement taken as text.
pub open spec fn result_text(r: Result<Option<String>, TurnViolation>) -> Result<
    Option<Seq<char>>,
    TurnViolation,
> {
    match r {
        Ok(Some(s)) => Ok(Some(s@)),
        Ok(None) => Ok(None),
        Err(v) => Err(v),
    }
}

/// One participant of a room.
pub struct Player {
    id: PlayerId,
    name: String,
    outbound: Vec<String>,
    hp: i64,
    defense: i64,
}

impl View for Player {
    type V = PlayerView;

    closed spec fn view(&self) -> PlayerView {
        PlayerView {
            id: self.id,
            name: self.name@,
            outbound: texts(self.outbound@),
            hp: self.hp as int,
            defense: self.defense as int,
        }
    }
}

impl Player {
    /// A player who has just joined: full hit points, nothing waiting.
    pub fn new(name: &str, id: PlayerId) -> (p: Player)
        ensures
            p@ == PlayerView::newcomer(name@, id),
    {
        let p = Player {
            id,
            name: name.to_owned(),
            outbound: Vec::new(),
            hp: INITIAL_HP,
            defense: INITIAL_DEFENSE,
        };
        assert(texts(p.outbound@) =~= Seq::<Seq<char>>::empty());
        p
    }

    /// The player's identifier.
    pub fn id(&self) -> (id: PlayerId)
        ensures
            id == self@.id,
    {
        self.id
    }

    /// The player's name.
    pub fn name(&self) -> (name: &String)
        ensures
            name@ == self@.name,
    {
        &self.name
    }

    /// The hit points the player has left.
    pub fn hp(&self) -> (hp: i64)
        ensures
            hp == self@.hp,
    {
        self.hp
    }

    /// The player's defense.
    pub fn defense(&self) -> (defense: i64)
        ensures
            defense == self@.defense,
    {
        self.defense
    }

    /// The messages waiting for the player, oldest first.
    pub fn outbound(&self) -> (lines: &Vec<String>)
        ensures
            texts(lines@) == self@.outbound,
    {
        &self.outbound
    }

    fn enqueue(&mut self, message: &str)
        ensures
            final(self)@ == old(self)@.with_message(message@),
    {
        self.outbound.push(message.to_owned());
        assert(texts(self.outbound@) =~= texts(old(self).outbound@).push(message@));
    }
}

/// What a list of players is to the contracts, player by player.
pub open spec fn views(players: Seq<Player>) -> Seq<PlayerView> {
    Seq::new(players.len(), |i: int| players[i]@)
}

/// A named group of players, in the order in which they joined.
pub struct RoomState {
    name: String,
    peers: Vec<Player>,
    turn: Option<PlayerId>,
    capacity: usize,
    finished: bool,
    variant: Variant,
}

impl View for RoomState {
    type V = RoomView;

    closed spec fn view(&self) -> RoomView {
        RoomView {
            name: self.name@,
            peers: views(self.peers@),
            turn: self.turn,
            capacity: self.capacity as nat,
            finished: self.finished,
            variant: self.variant,
        }
    }
}

impl RoomState {
    /// An empty room for at most `capacity` players.
    pub fn new(name: &str, capacity: usize, variant: Variant) -> (room: RoomState)
        ensures
            room@ == RoomView::fresh(name@, capacity as nat, variant),
            room@.wf(),
    {
        let room = RoomState {
            name: name.to_owned(),
            peers: Vec::new(),
            turn: None,
            capacity,
            finished: false,
            variant,
        };
        assert(views(room.peers@) =~= Seq::<PlayerView>::empty());
        room
    }

    /// The room's name.
    pub fn name(&self) -> (name: &String)
        ensures
            name@ == self@.name,
    {
        &self.name
    }

    /// How many players are in the room.
    pub fn len(&self) -> (n: usize)
        ensures
            n == self@.peers.len(),
    {
        self.peers.len()
    }

    /// Whether nobody is in the room.
    pub fn is_empty(&self) -> (empty: bool)
        ensures
            empty == (self@.peers.len() == 0),
    {
        self.peers.len() == 0
    }

    /// How many players the room may hold.
    pub fn capacity(&self) -> (capacity: usize)
        ensures
            capacity == self@.capacity,
    {
        self.capacity
    }

    /// Which protocol the room speaks.
    pub fn variant(&self) -> (variant: Variant)
        ensures
            variant == self@.variant,
    {
        self.variant
    }

    /// Who holds the turn, if anybody does.
    pub fn turn(&self) -> (turn: Option<PlayerId>)
        ensures
            turn == self@.turn,
    {
        self.turn
    }

    /// Where the room stands in its life cycle.
    pub fn phase(&self) -> (phase: Phase)
        ensures
            phase == self@.phase(),
    {
        if self.peers.len() == 0 {
            Phase::Empty
        } else if self.finished {
            Phase::Finished
        } else if self.variant == Variant::Combat && self.peers.len() == 2 {
            match self.turn {
                Some(t) => Phase::InProgress(t),
                None => Phase::WaitingForSecondPlayer,
            }
        } else {
            Phase::WaitingForSecondPlayer
        }
    }

    /// Whether a player with this identifier is in the room.
    pub fn contains(&self, id: PlayerId) -> (found: bool)
        requires
            self@.wf(),
        ensures
            found == self@.has(id),
    {
        self.find(id).is_some()
    }

    /// The player with this identifier, if one is in the room.
    pub fn player(&self, id: PlayerId) -> (found: Option<&Player>)
        requires
            self@.wf(),
        ensures
            found is Some == self@.has(id),
            found matches Some(p) ==> p@ == self@.player(id),
    {
        match self.find(id) {
            Some(i) => {
                assert(self@.peers[i as int] == self.peers[i as int]@);
                Some(&self.peers[i])
            },
            None => None,
        }
    }

    /// The identifiers of the players, in the order of joining.
    pub fn ids(&self) -> (ids: Vec<PlayerId>)
        ensures
            ids@.len() == self@.peers.len(),
            forall|i: int| 0 <= i < ids@.len() ==> ids@[i] == (#[trigger] self@.peers[i]).id,
    {
        let mut ids: Vec<PlayerId> = Vec::new();
        let mut i: usize = 0;
        while i < self.peers.len()
            invariant
                i <= self.peers.len(),
                ids@.len() == i,
                forall|k: int| 0 <= k < i ==> ids@[k] == (#[trigger] self@.peers[k]).id,
            decreases self.peers.len() - i,
        {
            assert(self@.peers[i as int] == self.peers[i as int]@);
            ids.push(self.peers[i].id);
            i += 1;
        }
        ids
    }

    /// The place of the player `id`, if the player is in the room.
    fn find(&self, id: PlayerId) -> (slot: Option<usize>)
        requires
            self@.wf(),
        ensures
            slot is Some == self@.has(id),
            slot matches Some(i) ==> i == self@.position(id) && i < self.peers.len(),
    {
        let mut i: usize = 0;
        while i < self.peers.len()
            invariant
                i <= self.peers.len(),
                self@.wf(),
                forall|k: int| 0 <= k < i ==> (#[trigger] self@.peers[k]).id != id,
            decreases self.peers.len() - i,
        {
            if self.peers[i].id == id {
                proof {
                    assert(self@.peers[i as int].id == id);
                    lemma_position(self@, i as int);
                }
                return Some(i);
            }
            i += 1;
        }
        None
    }

    /// Puts `message` into the queue of every player but `exclude`.
    pub fn broadcast(&mut self, exclude: PlayerId, message: &str)
        requires
            old(self)@.wf(),
        ensures
            final(self)@ == old(self)@.relayed(exclude, message@),
            final(self)@.wf(),
    {
        let mut i: usize = 0;
        while i < self.peers.len()
            invariant
                i <= self.peers.len(),
                self.peers.len() == old(self).peers.len(),
                self.name == old(self).name,
                self.turn == old(self).turn,
                self.capacity == old(self).capacity,
                self.finished == old(self).finished,
                self.variant == old(self).variant,
                forall|k: int|
                    0 <= k < i ==> (#[trigger] self.peers[k])@ == old(self)@.relayed(
                        exclude,
                        message@,
                    ).peers[k],
                forall|k: int| i <= k < self.peers.len() ==> self.peers[k] == old(self).peers[k],
            decreases self.peers.len() - i,
        {
            if self.peers[i].id != exclude {
                self.peers[i].enqueue(message);
            }
            i += 1;
        }
        proof {
            assert(self@.peers =~= old(self)@.relayed(exclude, message@).peers);
            lemma_relayed_wf(old(self)@, exclude, message@);
        }
    }

    /// Puts `message` into the queue of the player `to`. Nothing happens if
    /// no such player is in the room.
    pub fn notify(&mut self, to: PlayerId, message: &str)
        requires
            old(self)@.wf(),
        ensures
            final(self)@ == old(self)@.notified(to, message@),
            final(self)@.wf(),
    {
        match self.find(to) {
            Some(i) => {
                self.peers[i].enqueue(message);
                proof {
                    assert forall|k: int| 0 <= k < self.peers.len() implies (
                    #[trigger] self@.peers[k]) == old(self)@.notified(to, message@).peers[k] by {
                        if k != i {
                            assert(old(self)@.peers[k].id != old(self)@.peers[i as int].id);
                        }
                    }
                }
            },
            None => {
                proof {
                    assert forall|k: int| 0 <= k < self.peers.len() implies (
                    #[trigger] self@.peers[k]) == old(self)@.notified(to, message@).peers[k] by {
                        assert(old(self)@.peers[k].id != to);
                    }
                }
            },
        }
        proof {
            assert(self@.peers =~= old(self)@.notified(to, message@).peers);
            lemma_notified_wf(old(self)@, to, message@);
        }
    }

    /// Takes what waits in the queue of the player `of`, oldest first, and
    /// leaves that queue empty. Returns nothing if no such player is in the room.
    pub fn take_outbound(&mut self, of: PlayerId) -> (lines: Vec<String>)
        requires
            old(self)@.wf(),
        ensures
            texts(lines@) == old(self)@.pending(of),
            final(self)@ == old(self)@.drained(of),
            final(self)@.wf(),
    {
        let mut lines: Vec<String> = Vec::new();
        match self.find(of) {
            Some(i) => {
                std::mem::swap(&mut lines, &mut self.peers[i].outbound);
                proof {
                    assert(texts(self.peers[i as int].outbound@) =~= Seq::<Seq<char>>::empty());
                    assert forall|k: int| 0 <= k < self.peers.len() implies (
                    #[trigger] self@.peers[k]) == old(self)@.drained(of).peers[k] by {
                        if k != i {
                            assert(old(self)@.peers[k].id != old(self)@.peers[i as int].id);
                        }
                    }
                }
            },
            None => {
                proof {
                    assert(texts(lines@) =~= Seq::<Seq<char>>::empty());
                    assert forall|k: int| 0 <= k < self.peers.len() implies (
                    #[trigger] self@.peers[k]) == old(self)@.drained(of).peers[k] by {
                        assert(old(self)@.peers[k].id != of);
                    }
                }
            },
        }
        proof {
            assert(self@.peers =~= old(self)@.drained(of).peers);
            lemma_drained_wf(old(self)@, of);
        }
        lines
    }

    /// Lets the player `id` in under `name`, unless the room is full or holds
    /// a player with that identifier already.
    pub fn join(&mut self, name: &str, id: PlayerId) -> (result: JoinResult)
        requires
            old(self)@.wf(),
        ensures
            result == old(self)@.join_result(id),
            final(self)@ == old(self)@.joined(name@, id),
            final(self)@.wf(),
    {
        proof {
            lemma_joined_wf(self@, name@, id);
        }
        if self.peers.len() >= self.capacity {
            return JoinResult::Rejected(RejectReason::RoomFull);
        }
        if self.find(id).is_some() {
            return JoinResult::Rejected(RejectReason::DuplicateId);
        }
        self.peers.push(Player::new(name, id));
        if self.variant == Variant::Combat && self.peers.len() == 2 {
            self.turn = Some(self.peers[0].id);
        }
        proof {
            assert(self@.peers =~= old(self)@.admitted(name@, id).peers);
        }
        JoinResult::Joined(id)
    }

    /// Removes the player `id`. Returns whether there was such a player.
    pub fn leave(&mut self, id: PlayerId) -> (was_member: bool)
        requires
            old(self)@.wf(),
        ensures
            was_member == old(self)@.has(id),
            final(self)@ == old(self)@.left(id),
            final(self)@.wf(),
    {
        proof {
            lemma_left_wf(self@, id);
        }
        match self.find(id) {
            None => false,
            Some(k) => {
                self.peers.remove(k);
                proof {
                    assert(views(self.peers@) =~= views(old(self).peers@).remove(k as int));
                }
                if self.peers.len() == 0 {
                    self.turn = None;
                    self.finished = false;
                } else if self.turn == Some(id) {
                    let next: usize = if k < self.peers.len() {
                        k
                    } else {
                        0
                    };
                    assert(self@.peers[next as int] == self.peers[next as int]@);
                    self.turn = Some(self.peers[next].id);
                }
                proof {
                    assert(self@.peers =~= old(self)@.left(id).peers);
                }
                true
            },
        }
    }

    /// Passes the turn to the player who joined next after its holder, from
    /// the last one back to the first. Where nobody holds it the first player
    /// gets it. An empty room stays as it is.
    pub fn next_turn(&mut self)
        requires
            old(self)@.wf(),
        ensures
            final(self)@ == old(self)@.rotated(),
            final(self)@.wf(),
    {
        proof {
            lemma_rotated_wf(self@);
        }
        if self.peers.len() > 0 {
            let holder = match self.turn {
                Some(t) => self.find(t),
                None => None,
            };
            let next: usize = match holder {
                Some(k) => if k + 1 < self.peers.len() {
                    k + 1
                } else {
                    0
                },
                None => 0,
            };
            proof {
                let n = self.peers.len() as int;
                if let Some(k) = holder {
                    if k + 1 < n {
                        assert((k + 1) % n == k + 1) by (nonlinear_arith)
                            requires
                                0 <= k + 1 < n,
                        ;
                    } else {
                        assert((k + 1) % n == 0) by (nonlinear_arith)
                            requires
                                k + 1 == n,
                                n > 0,
                        ;
                    }
                }
                assert(self@.peers[next as int] == self.peers[next as int]@);
            }
            self.turn = Some(self.peers[next].id);
        }
    }

    /// Resolves one attack of strength `raw_damage` by `attacker`.
    ///
    /// The attack is turned down, and nothing changes, unless two players
    /// fight and `attacker` holds the turn. Otherwise the other player loses
    /// as many hit points as `raw_damage` exceeds that player's defense. If
    /// none are left, the room is finished and the loss announcement is
    /// returned.
    pub fn apply_attack(&mut self, attacker: PlayerId, raw_damage: i64) -> (result: Result<
        Option<String>,
        TurnViolation,
    >)
        requires
            old(self)@.wf(),
        ensures
            result_text(result) == old(self)@.attack_result(attacker, raw_damage as int),
            final(self)@ == old(self)@.attacked(attacker, raw_damage as int),
            final(self)@.wf(),
    {
        proof {
            lemma_attacked_wf(self@, attacker, raw_damage as int);
        }
        if self.variant != Variant::Combat || self.finished || self.peers.len() != 2 {
            return Err(TurnViolation::RoomNotInProgress);
        }
        match self.turn {
            None => {
                return Err(TurnViolation::RoomNotInProgress);
            },
            Some(t) => {
                if t != attacker {
                    return Err(TurnViolation::NotTurnHolder);
                }
            },
        }
        let d: usize = if self.peers[0].id == attacker {
            1
        } else {
            0
        };
        proof {
            assert(self@.peers[0] == self.peers[0]@);
            assert(self@.peers[d as int] == self.peers[d as int]@);
            lemma_position(self@, 0);
            assert(d == self@.opponent(attacker));
        }
        let defense = self.peers[d].defense;
        let loss: i64 = if raw_damage > defense {
            raw_damage - defense
        } else {
            0
        };
        let hp: i64 = self.peers[d].hp - loss;
        self.peers[d].hp = hp;
        proof {
            assert(self@.peers =~= old(self)@.struck(attacker, raw_damage as int).peers);
        }
        if hp <= 0 {
            self.finished = true;
            let mut text = self.peers[d].name.clone();
            text.append(" has lost!");
            Ok(Some(text))
        } else {
            Ok(None)
        }
    }
}

} // verus!
