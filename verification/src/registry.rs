//! The registry: every room of the server under its name.

use vstd::prelude::*;
use vstd::string::*;
use crate::ident::PlayerId;
use crate::model::{JoinResult, Phase, PlayerView, RoomView, TurnViolation, Variant};
use crate::room::{result_text, texts, RoomState};

verus! {

/// How many players a combat room holds.
pub const COMBAT_CAPACITY: usize = 2;

/// The registry as the contracts see it. Only rooms with somebody in them are
/// kept; a name that is not kept stands for the empty room.
pub struct SharedView {
    pub rooms: Map<Seq<char>, RoomView>,
    pub capacity: nat,
    pub variant: Variant,
}

impl SharedView {
    /// The registry without any room.
    pub open spec fn empty(capacity: nat, variant: Variant) -> SharedView {
        SharedView { rooms: Map::empty(), capacity, variant }
    }

    /// The room called `name`: the one kept under that name, or else the
    /// empty room.
    pub open spec fn room(self, name: Seq<char>) -> RoomView {
        if self.rooms.contains_key(name) {
            self.rooms[name]
        } else {
            RoomView::fresh(name, self.capacity, self.variant)
        }
    }

    /// The registry with `room` in the place of the room of its name. An
    /// empty room is not kept.
    pub open spec fn with_room(self, room: RoomView) -> SharedView {
        SharedView {
            rooms: if room.peers.len() == 0 {
                self.rooms.remove(room.name)
            } else {
                self.rooms.insert(room.name, room)
            },
            ..self
        }
    }

    /// The invariant of a registry: every room kept is well-formed, has
    /// somebody in it, and has the registry's capacity and variant.
    pub open spec fn wf(self) -> bool {
        forall|n: Seq<char>| #[trigger]
            self.rooms.contains_key(n) ==> {
                &&& self.rooms[n].wf()
                &&& self.rooms[n].name == n
                &&& self.rooms[n].peers.len() > 0
                &&& self.rooms[n].capacity == self.capacity
                &&& self.rooms[n].variant == self.variant
            }
    }

    /// The registry after a request of `id` to join `room` under `name`.
    pub open spec fn joined(self, room: Seq<char>, name: Seq<char>, id: PlayerId) -> SharedView {
        self.with_room(self.room(room).joined(name, id))
    }

    /// The registry after `id` has left `room`.
    pub open spec fn left(self, room: Seq<char>, id: PlayerId) -> SharedView {
        self.with_room(self.room(room).left(id))
    }

    /// The registry after `message` went to everybody in `room` but `exclude`.
    pub open spec fn relayed(self, room: Seq<char>, exclude: PlayerId, message: Seq<char>)
        -> SharedView {
        self.with_room(self.room(room).relayed(exclude, message))
    }

    /// The registry after `message` went to the player `to` in `room`.
    pub open spec fn notified(self, room: Seq<char>, to: PlayerId, message: Seq<char>)
        -> SharedView {
        self.with_room(self.room(room).notified(to, message))
    }

    /// The registry after the queue of the player `of` in `room` was emptied.
    pub open spec fn drained(self, room: Seq<char>, of: PlayerId) -> SharedView {
        self.with_room(self.room(room).drained(of))
    }

    /// The registry after the turn in `room` has moved on.
    pub open spec fn rotated(self, room: Seq<char>) -> SharedView {
        self.with_room(self.room(room).rotated())
    }

    /// The registry after a request of `attacker` in `room` to attack with
    /// strength `raw`.
    pub open spec fn attacked(self, room: Seq<char>, attacker: PlayerId, raw: int) -> SharedView {
        self.with_room(self.room(room).attacked(attacker, raw))
    }
}

/// Putting a well-formed room of the registry's capacity and variant in its
/// place keeps the registry well-formed, changes that room and no other.
pub proof fn lemma_with_room(shared: SharedView, room: RoomView)
    requires
        shared.wf(),
        room.wf(),
        room.capacity == shared.capacity,
        room.variant == shared.variant,
    ensures
        shared.with_room(room).wf(),
        shared.with_room(room).room(room.name) == room,
        forall|n: Seq<char>| n != room.name ==> shared.with_room(room).room(n) == shared.room(n),
{
    let after = shared.with_room(room);
    assert forall|n: Seq<char>| #[trigger] after.rooms.contains_key(n) implies {
        &&& after.rooms[n].wf()
        &&& after.rooms[n].name == n
        &&& after.rooms[n].peers.len() > 0
        &&& after.rooms[n].capacity == after.capacity
        &&& after.rooms[n].variant == after.variant
    } by {
        if n != room.name {
            assert(shared.rooms.contains_key(n));
        }
    }
    if room.peers.len() == 0 {
        assert(room.peers =~= Seq::<PlayerView>::empty());
        assert(room.turn is None) by {
            if room.turn is Some {
                assert(room.has(room.turn->0));
            }
        }
    }
}

/// Every room of a well-formed registry is well-formed and has the
/// registry's capacity and variant, whether it is kept or not.
pub proof fn lemma_room_wf(shared: SharedView, name: Seq<char>)
    requires
        shared.wf(),
    ensures
        shared.room(name).wf(),
        shared.room(name).name == name,
        shared.room(name).capacity == shared.capacity,
        shared.room(name).variant == shared.variant,
{
    if !shared.rooms.contains_key(name) {
        let fresh = RoomView::fresh(name, shared.capacity, shared.variant);
        assert(fresh.peers.len() == 0);
    }
}

/// Putting a room of a well-formed registry in its own place changes nothing.
pub proof fn lemma_with_same_room(shared: SharedView, name: Seq<char>)
    requires
        shared.wf(),
    ensures
        shared.with_room(shared.room(name)) == shared,
{
    assert(shared.with_room(shared.room(name)).rooms =~= shared.rooms);
}

/// Every room of the server under its name.
pub struct Shared {
    rooms: Vec<RoomState>,
    capacity: usize,
    variant: Variant,
}

impl View for Shared {
    type V = SharedView;

    closed spec fn view(&self) -> SharedView {
        SharedView {
            rooms: Map::new(|n: Seq<char>| self.holds(n), |n: Seq<char>| self.rooms[self.slot_of(n)]@),
            capacity: self.capacity as nat,
            variant: self.variant,
        }
    }
}

impl Shared {
    /// Whether a room called `name` is kept.
    closed spec fn holds(&self, name: Seq<char>) -> bool {
        exists|i: int| 0 <= i < self.rooms.len() && (#[trigger] self.rooms[i])@.name == name
    }

    /// Where the room called `name` is kept.
    closed spec fn slot_of(&self, name: Seq<char>) -> int {
        choose|i: int| 0 <= i < self.rooms.len() && (#[trigger] self.rooms[i])@.name == name
    }

    /// The invariant of the registry: no two rooms kept share a name, and each
    /// is well-formed, has somebody in it, and has the registry's capacity and
    /// variant.
    pub closed spec fn wf(&self) -> bool {
        &&& forall|i: int, j: int|
            0 <= i < j < self.rooms.len() ==> (#[trigger] self.rooms[i])@.name != (
            #[trigger] self.rooms[j])@.name
        &&& forall|i: int|
            0 <= i < self.rooms.len() ==> {
                &&& (#[trigger] self.rooms[i])@.wf()
                &&& self.rooms[i]@.peers.len() > 0
                &&& self.rooms[i]@.capacity == self.capacity
                &&& self.rooms[i]@.variant == self.variant
            }
    }

    /// A well-formed registry is well-formed to the contracts.
    pub proof fn lemma_wf(&self)
        requires
            self.wf(),
        ensures
            self@.wf(),
    {
        self.lemma_slots();
    }

    /// In a well-formed registry a room's name finds the room.
    proof fn lemma_slots(&self)
        requires
            self.wf(),
        ensures
            forall|i: int|
                0 <= i < self.rooms.len() ==> {
                    &&& self.holds((#[trigger] self.rooms[i])@.name)
                    &&& self.slot_of(self.rooms[i]@.name) == i
                    &&& self@.rooms.contains_key(self.rooms[i]@.name)
                    &&& self@.rooms[self.rooms[i]@.name] == self.rooms[i]@
                },
            forall|n: Seq<char>|
                self.holds(n) ==> 0 <= self.slot_of(n) < self.rooms.len() && self.rooms[self.slot_of(
                    n,
                )]@.name == n,
            forall|n: Seq<char>| self.holds(n) == #[trigger] self@.rooms.contains_key(n),
    {
        assert forall|i: int| 0 <= i < self.rooms.len() implies {
            &&& self.holds((#[trigger] self.rooms[i])@.name)
            &&& self.slot_of(self.rooms[i]@.name) == i
        } by {
            let n = self.rooms[i]@.name;
            let k = self.slot_of(n);
            assert(0 <= k < self.rooms.len() && self.rooms[k]@.name == n);
            if k < i {
                assert(self.rooms[k]@.name != self.rooms[i]@.name);
            } else if i < k {
                assert(self.rooms[i]@.name != self.rooms[k]@.name);
            }
        }
    }

    /// Changing the room kept at `i`, but not its name, changes that room and
    /// no other.
    proof fn lemma_replaced(before: Shared, after: Shared, i: int)
        requires
            before.wf(),
            0 <= i < before.rooms.len(),
            after.rooms.len() == before.rooms.len(),
            after.capacity == before.capacity,
            after.variant == before.variant,
            forall|k: int| 0 <= k < before.rooms.len() && k != i ==> after.rooms[k] == before.rooms[k],
            after.rooms[i]@.name == before.rooms[i]@.name,
            after.rooms[i]@.wf(),
            after.rooms[i]@.peers.len() > 0,
            after.rooms[i]@.capacity == before.capacity,
            after.rooms[i]@.variant == before.variant,
        ensures
            after.wf(),
            after@ == before@.with_room(after.rooms[i]@),
    {
        assert forall|k: int| 0 <= k < before.rooms.len() implies (#[trigger] after.rooms[k])@.name
            == before.rooms[k]@.name by {}
        assert(after.wf()) by {
            assert forall|a: int, b: int| 0 <= a < b < after.rooms.len() implies (
            #[trigger] after.rooms[a])@.name != (#[trigger] after.rooms[b])@.name by {
                assert(before.rooms[a]@.name != before.rooms[b]@.name);
            }
        }
        before.lemma_slots();
        after.lemma_slots();
        let want = before@.with_room(after.rooms[i]@);
        assert forall|n: Seq<char>| after@.rooms.contains_key(n) == want.rooms.contains_key(n) by {
            if after.holds(n) {
                let k = after.slot_of(n);
                assert(before.rooms[k]@.name == n);
            }
            if before.holds(n) {
                let k = before.slot_of(n);
                assert(after.rooms[k]@.name == n);
            }
        }
        assert forall|n: Seq<char>| after@.rooms.contains_key(n) implies after@.rooms[n]
            == want.rooms[n] by {
            let k = after.slot_of(n);
            assert(before.rooms[k]@.name == n);
            if k != i {
                assert(after.rooms[k] == before.rooms[k]);
            }
        }
        assert(after@.rooms =~= want.rooms);
    }

    /// Dropping the room kept at `i` leaves the empty room under its name and
    /// changes no other.
    proof fn lemma_removed(before: Shared, after: Shared, i: int, gone: RoomView)
        requires
            before.wf(),
            0 <= i < before.rooms.len(),
            after.rooms@ == before.rooms@.remove(i),
            after.capacity == before.capacity,
            after.variant == before.variant,
            gone.name == before.rooms[i]@.name,
            gone.peers.len() == 0,
        ensures
            after.wf(),
            after@ == before@.with_room(gone),
    {
        assert forall|k: int| 0 <= k < after.rooms.len() implies #[trigger] after.rooms[k]
            == before.rooms[if k < i {
            k
        } else {
            k + 1
        }] by {}
        assert(after.wf()) by {
            assert forall|a: int, b: int| 0 <= a < b < after.rooms.len() implies (
            #[trigger] after.rooms[a])@.name != (#[trigger] after.rooms[b])@.name by {
                let x = if a < i { a } else { a + 1 };
                let y = if b < i { b } else { b + 1 };
                assert(after.rooms[a] == before.rooms[x]);
                assert(after.rooms[b] == before.rooms[y]);
                assert(before.rooms[x]@.name != before.rooms[y]@.name);
            }
            assert forall|k: int| 0 <= k < after.rooms.len() implies {
                &&& (#[trigger] after.rooms[k])@.wf()
                &&& after.rooms[k]@.peers.len() > 0
                &&& after.rooms[k]@.capacity == after.capacity
                &&& after.rooms[k]@.variant == after.variant
            } by {
                let x = if k < i { k } else { k + 1 };
                assert(after.rooms[k] == before.rooms[x]);
            }
        }
        before.lemma_slots();
        after.lemma_slots();
        let want = before@.with_room(gone);
        assert forall|n: Seq<char>| after@.rooms.contains_key(n) == want.rooms.contains_key(n) by {
            if after.holds(n) {
                let k = after.slot_of(n);
                let x = if k < i { k } else { k + 1 };
                assert(after.rooms[k] == before.rooms[x]);
                assert(before.rooms[x]@.name == n);
                if x < i {
                    assert(before.rooms[x]@.name != before.rooms[i]@.name);
                } else {
                    assert(before.rooms[i]@.name != before.rooms[x]@.name);
                }
            }
            if before.holds(n) && n != gone.name {
                let x = before.slot_of(n);
                let k = if x < i { x } else { x - 1 };
                assert(after.rooms[k] == before.rooms[x]);
                assert(after.rooms[k]@.name == n);
            }
        }
        assert forall|n: Seq<char>| after@.rooms.contains_key(n) implies after@.rooms[n]
            == want.rooms[n] by {
            let k = after.slot_of(n);
            let x = if k < i { k } else { k + 1 };
            assert(after.rooms[k] == before.rooms[x]);
            assert(before.rooms[x]@.name == n);
        }
        assert(after@.rooms =~= want.rooms);
    }

    /// Keeping one more room, under a name that was not kept, adds that room
    /// and changes no other.
    proof fn lemma_pushed(before: Shared, after: Shared, room: RoomState)
        requires
            before.wf(),
            after.rooms@ == before.rooms@.push(room),
            after.capacity == before.capacity,
            after.variant == before.variant,
            !before.holds(room@.name),
            room@.wf(),
            room@.peers.len() > 0,
            room@.capacity == before.capacity,
            room@.variant == before.variant,
        ensures
            after.wf(),
            after@ == before@.with_room(room@),
    {
        let last = before.rooms.len() as int;
        assert forall|k: int| 0 <= k < last implies #[trigger] after.rooms[k] == before.rooms[k] by {}
        assert(after.rooms[last] == room);
        assert(after.wf()) by {
            assert forall|a: int, b: int| 0 <= a < b < after.rooms.len() implies (
            #[trigger] after.rooms[a])@.name != (#[trigger] after.rooms[b])@.name by {
                assert(after.rooms[a] == before.rooms[a]);
                if b < last {
                    assert(after.rooms[b] == before.rooms[b]);
                    assert(before.rooms[a]@.name != before.rooms[b]@.name);
                } else {
                    assert(before.rooms[a]@.name != room@.name);
                }
            }
            assert forall|k: int| 0 <= k < after.rooms.len() implies {
                &&& (#[trigger] after.rooms[k])@.wf()
                &&& after.rooms[k]@.peers.len() > 0
                &&& after.rooms[k]@.capacity == after.capacity
                &&& after.rooms[k]@.variant == after.variant
            } by {
                if k < last {
                    assert(after.rooms[k] == before.rooms[k]);
                }
            }
        }
        before.lemma_slots();
        after.lemma_slots();
        let want = before@.with_room(room@);
        assert forall|n: Seq<char>| after@.rooms.contains_key(n) == want.rooms.contains_key(n) by {
            if after.holds(n) {
                let k = after.slot_of(n);
                if k < last {
                    assert(after.rooms[k] == before.rooms[k]);
                    assert(before.rooms[k]@.name == n);
                }
            }
            if before.holds(n) {
                let k = before.slot_of(n);
                assert(after.rooms[k] == before.rooms[k]);
                assert(after.rooms[k]@.name == n);
            }
            if n == room@.name {
                assert(after.rooms[last]@.name == n);
            }
        }
        assert forall|n: Seq<char>| after@.rooms.contains_key(n) implies after@.rooms[n]
            == want.rooms[n] by {
            let k = after.slot_of(n);
            if k < last {
                assert(after.rooms[k] == before.rooms[k]);
                assert(before.rooms[k]@.name == n);
            }
        }
        assert(after@.rooms =~= want.rooms);
    }

    /// A room that is not kept is the empty room, and putting an empty room in
    /// its place changes nothing.
    proof fn lemma_absent(&self, name: Seq<char>, room: RoomView)
        requires
            self.wf(),
            !self.holds(name),
            room.name == name,
            room.peers.len() == 0,
        ensures
            self@.room(name) == RoomView::fresh(name, self.capacity as nat, self.variant),
            self@ == self@.with_room(room),
    {
        self.lemma_slots();
        assert(self@.rooms =~= self@.with_room(room).rooms);
    }

    /// A registry of combat rooms for two players each, with no room yet.
    pub fn new() -> (shared: Shared)
        ensures
            shared.wf(),
            shared@ == SharedView::empty(COMBAT_CAPACITY as nat, Variant::Combat),
    {
        Shared::with_capacity(Variant::Combat, COMBAT_CAPACITY)
    }

    /// A registry of rooms of the given variant for at most `capacity`
    /// players each, with no room yet.
    pub fn with_capacity(variant: Variant, capacity: usize) -> (shared: Shared)
        ensures
            shared.wf(),
            shared@ == SharedView::empty(capacity as nat, variant),
    {
        let shared = Shared { rooms: Vec::new(), capacity, variant };
        assert(shared@.rooms =~= Map::<Seq<char>, RoomView>::empty());
        shared
    }

    /// Where the room called `name` is kept, if it is.
    fn slot(&self, name: &str) -> (slot: Option<usize>)
        requires
            self.wf(),
        ensures
            slot is Some == self.holds(name@),
            slot matches Some(i) ==> i < self.rooms.len() && self.rooms[i as int]@.name == name@
                && self@.room(name@) == self.rooms[i as int]@,
            slot is None ==> self@.room(name@) == RoomView::fresh(
                name@,
                self.capacity as nat,
                self.variant,
            ),
    {
        proof {
            self.lemma_slots();
        }
        let key = name.to_owned();
        let mut i: usize = 0;
        while i < self.rooms.len()
            invariant
                i <= self.rooms.len(),
                key@ == name@,
                self.wf(),
                forall|k: int| 0 <= k < i ==> (#[trigger] self.rooms[k])@.name != name@,
            decreases self.rooms.len() - i,
        {
            if *self.rooms[i].name() == key {
                proof {
                    self.lemma_slots();
                }
                return Some(i);
            }
            i += 1;
        }
        None
    }

    /// How many players each room may hold.
    pub fn capacity(&self) -> (capacity: usize)
        ensures
            capacity == self@.capacity,
    {
        self.capacity
    }

    /// Which protocol the rooms speak.
    pub fn variant(&self) -> (variant: Variant)
        ensures
            variant == self@.variant,
    {
        self.variant
    }

    /// How many rooms have somebody in them.
    pub fn room_count(&self) -> (n: usize)
        requires
            self.wf(),
        ensures
            n == self@.rooms.len(),
            self@.rooms.dom().finite(),
    {
        proof {
            self.lemma_count(self.rooms.len() as int);
            assert(self@.rooms.dom() =~= self.names_below(self.rooms.len() as int)) by {
                self.lemma_slots();
            }
        }
        self.rooms.len()
    }

    /// The names of the first `n` rooms kept.
    closed spec fn names_below(&self, n: int) -> Set<Seq<char>> {
        Set::new(
            |name: Seq<char>| exists|i: int| 0 <= i < n && (#[trigger] self.rooms[i])@.name == name,
        )
    }

    /// The first `n` rooms kept have `n` names.
    proof fn lemma_count(&self, n: int)
        requires
            self.wf(),
            0 <= n <= self.rooms.len(),
        ensures
            self.names_below(n).finite(),
            self.names_below(n).len() == n,
        decreases n,
    {
        if n == 0 {
            assert(self.names_below(0) =~= Set::<Seq<char>>::empty());
        } else {
            self.lemma_count(n - 1);
            let name = self.rooms[n - 1]@.name;
            assert(!self.names_below(n - 1).contains(name)) by {
                if self.names_below(n - 1).contains(name) {
                    let i = choose|i: int| 0 <= i < n - 1 && (#[trigger] self.rooms[i])@.name == name;
                    assert(self.rooms[i]@.name != self.rooms[n - 1]@.name);
                }
            }
            assert(self.names_below(n) =~= self.names_below(n - 1).insert(name)) by {
                assert forall|m: Seq<char>| self.names_below(n).contains(m) implies self.names_below(
                    n - 1,
                ).insert(name).contains(m) by {
                    let i = choose|i: int| 0 <= i < n && (#[trigger] self.rooms[i])@.name == m;
                    if i < n - 1 {
                        assert(self.names_below(n - 1).contains(m));
                    }
                }
                assert forall|m: Seq<char>| self.names_below(n - 1).insert(name).contains(
                    m,
                ) implies self.names_below(n).contains(m) by {
                    if m == name {
                        assert(self.rooms[n - 1]@.name == m);
                    } else {
                        let i = choose|i: int|
                            0 <= i < n - 1 && (#[trigger] self.rooms[i])@.name == m;
                        assert(self.rooms[i]@.name == m);
                    }
                }
            }
        }
    }

    /// The room called `name`, if somebody is in it.
    pub fn room(&self, name: &str) -> (room: Option<&RoomState>)
        requires
            self.wf(),
        ensures
            room is Some == self@.rooms.contains_key(name@),
            room matches Some(r) ==> r@ == self@.room(name@) && r@.wf(),
    {
        proof {
            self.lemma_slots();
        }
        match self.slot(name) {
            Some(i) => Some(&self.rooms[i]),
            None => None,
        }
    }

    /// Where the room called `name` stands in its life cycle.
    pub fn phase(&self, name: &str) -> (phase: Phase)
        requires
            self.wf(),
        ensures
            phase == self@.room(name@).phase(),
    {
        match self.slot(name) {
            Some(i) => self.rooms[i].phase(),
            None => Phase::Empty,
        }
    }

    /// Lets the player `id` into `room` under `name`. The room comes into
    /// being with its first player. The request is turned down, and nothing
    /// changes, if the room is full or holds a player with that identifier.
    pub fn join_with_id(&mut self, room: &str, name: &str, id: PlayerId) -> (result: JoinResult)
        requires
            old(self).wf(),
        ensures
            final(self).wf(),
            result == old(self)@.room(room@).join_result(id),
            final(self)@ == old(self)@.joined(room@, name@, id),
    {
        match self.slot(room) {
            Some(i) => {
                let result = self.rooms[i].join(name, id);
                proof {
                    Self::lemma_replaced(*old(self), *self, i as int);
                }
                result
            },
            None => {
                let mut fresh = RoomState::new(room, self.capacity, self.variant);
                let result = fresh.join(name, id);
                match result {
                    JoinResult::Joined(_) => {
                        self.rooms.push(fresh);
                        proof {
                            Self::lemma_pushed(*old(self), *self, fresh);
                        }
                    },
                    JoinResult::Rejected(_) => {
                        proof {
                            old(self).lemma_absent(room@, fresh@);
                        }
                    },
                }
                result
            },
        }
    }

    /// Lets a player into `room` under `name`, with an identifier minted for
    /// the occasion. The request is turned down, and nothing changes, if the
    /// room is full or holds a player with that identifier.
    pub fn join(&mut self, room: &str, name: &str) -> (result: JoinResult)
        requires
            old(self).wf(),
        ensures
            final(self).wf(),
            exists|id: PlayerId|
                {
                    &&& id.is_random_form()
                    &&& result == old(self)@.room(room@).join_result(id)
                    &&& final(self)@ == #[trigger] old(self)@.joined(room@, name@, id)
                },
    {
        let id = PlayerId::mint();
        self.join_with_id(room, name, id)
    }

    /// Removes the player `id` from `room`. Returns whether there was such a
    /// player. A room that its last player leaves is no longer kept.
    pub fn leave(&mut self, room: &str, id: PlayerId) -> (was_member: bool)
        requires
            old(self).wf(),
        ensures
            final(self).wf(),
            was_member == old(self)@.room(room@).has(id),
            final(self)@ == old(self)@.left(room@, id),
    {
        match self.slot(room) {
            Some(i) => {
                let was_member = self.rooms[i].leave(id);
                if self.rooms[i].is_empty() {
                    let ghost gone = self.rooms[i as int]@;
                    self.rooms.remove(i);
                    proof {
                        assert(self.rooms@ =~= old(self).rooms@.remove(i as int));
                        Self::lemma_removed(*old(self), *self, i as int, gone);
                    }
                } else {
                    proof {
                        Self::lemma_replaced(*old(self), *self, i as int);
                    }
                }
                was_member
            },
            None => {
                proof {
                    let fresh = RoomView::fresh(room@, self.capacity as nat, self.variant);
                    assert(!fresh.has(id));
                    self.lemma_absent(room@, fresh.left(id));
                }
                false
            },
        }
    }

    /// Puts `message` into the queue of every player in `room` but
    /// `exclude`. Nothing happens if nobody is in the room.
    pub fn broadcast(&mut self, room: &str, exclude: PlayerId, message: &str)
        requires
            old(self).wf(),
        ensures
            final(self).wf(),
            final(self)@ == old(self)@.relayed(room@, exclude, message@),
    {
        match self.slot(room) {
            Some(i) => {
                self.rooms[i].broadcast(exclude, message);
                proof {
                    Self::lemma_replaced(*old(self), *self, i as int);
                }
            },
            None => {
                proof {
                    let fresh = RoomView::fresh(room@, self.capacity as nat, self.variant);
                    self.lemma_absent(room@, fresh.relayed(exclude, message@));
                }
            },
        }
    }

    /// Puts `message` into the queue of the player `to` in `room`. Nothing
    /// happens if there is no such player.
    pub fn notify(&mut self, room: &str, to: PlayerId, message: &str)
        requires
            old(self).wf(),
        ensures
            final(self).wf(),
            final(self)@ == old(self)@.notified(room@, to, message@),
    {
        match self.slot(room) {
            Some(i) => {
                self.rooms[i].notify(to, message);
                proof {
                    Self::lemma_replaced(*old(self), *self, i as int);
                }
            },
            None => {
                proof {
                    let fresh = RoomView::fresh(room@, self.capacity as nat, self.variant);
                    self.lemma_absent(room@, fresh.notified(to, message@));
                }
            },
        }
    }

    /// Takes what waits in the queue of the player `of` in `room`, oldest
    /// first, and leaves that queue empty. Returns nothing if there is no
    /// such player.
    pub fn take_outbound(&mut self, room: &str, of: PlayerId) -> (lines: Vec<String>)
        requires
            old(self).wf(),
        ensures
            final(self).wf(),
            texts(lines@) == old(self)@.room(room@).pending(of),
            final(self)@ == old(self)@.drained(room@, of),
    {
        match self.slot(room) {
            Some(i) => {
                let lines = self.rooms[i].take_outbound(of);
                proof {
                    Self::lemma_replaced(*old(self), *self, i as int);
                }
                lines
            },
            None => {
                let lines: Vec<String> = Vec::new();
                proof {
                    let fresh = RoomView::fresh(room@, self.capacity as nat, self.variant);
                    assert(!fresh.has(of));
                    assert(texts(lines@) =~= fresh.pending(of));
                    self.lemma_absent(room@, fresh.drained(of));
                }
                lines
            },
        }
    }

    /// Passes the turn in `room` to the player who joined next after its
    /// holder, from the last one back to the first. Where nobody holds it the
    /// first player gets it. Nothing happens if nobody is in the room.
    pub fn next_turn(&mut self, room: &str)
        requires
            old(self).wf(),
        ensures
            final(self).wf(),
            final(self)@ == old(self)@.rotated(room@),
    {
        match self.slot(room) {
            Some(i) => {
                self.rooms[i].next_turn();
                proof {
                    Self::lemma_replaced(*old(self), *self, i as int);
                }
            },
            None => {
                proof {
                    let fresh = RoomView::fresh(room@, self.capacity as nat, self.variant);
                    self.lemma_absent(room@, fresh.rotated());
                }
            },
        }
    }

    /// Resolves one attack of strength `raw_damage` by `attacker` in `room`.
    ///
    /// The attack is turned down, and nothing changes, unless two players
    /// fight in the room and `attacker` holds the turn. Otherwise the other
    /// player loses as many hit points as `raw_damage` exceeds that player's
    /// defense. If none are left, the room is finished and the loss
    /// announcement is returned.
    pub fn apply_attack(&mut self, room: &str, attacker: PlayerId, raw_damage: i64) -> (result:
        Result<Option<String>, TurnViolation>)
        requires
            old(self).wf(),
        ensures
            final(self).wf(),
            result_text(result) == old(self)@.room(room@).attack_result(
                attacker,
                raw_damage as int,
            ),
            final(self)@ == old(self)@.attacked(room@, attacker, raw_damage as int),
    {
        match self.slot(room) {
            Some(i) => {
                let result = self.rooms[i].apply_attack(attacker, raw_damage);
                proof {
                    Self::lemma_replaced(*old(self), *self, i as int);
                }
                result
            },
            None => {
                proof {
                    let fresh = RoomView::fresh(room@, self.capacity as nat, self.variant);
                    self.lemma_absent(room@, fresh.attacked(attacker, raw_damage as int));
                }
                Err(TurnViolation::RoomNotInProgress)
            },
        }
    }
}

} // verus!
