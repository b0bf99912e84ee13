use vstd::prelude::*;
use crate::hold::Vec3;
use crate::registry::{holds_something, spec_held_by, without_player, OwnershipRegistry};

verus! {

/// What a player asks for with an interaction message.
#[derive(Clone, Copy, Debug, PartialEq, Eq, Structural)]
pub enum InteractState {
    Pickup,
    LetGo,
}

/// When an object leaves the scene.
#[derive(Clone, Copy, Debug, PartialEq, Eq, Structural)]
pub enum DespawnPolicy {
    /// It stays until despawned explicitly.
    Never,
    /// It goes once more than `lifetime` milliseconds have passed since
    /// `spawned_at`.
    Timeout { spawned_at: u64, lifetime: u64 },
    /// It goes, and scores a point, once its height drops below `threshold`.
    Below { threshold: i64 },
}

/// An object of the scene.
#[derive(Clone, Copy, Debug, PartialEq, Eq, Structural)]
pub struct SceneObject {
    pub id: u64,
    pub position: Vec3,
    /// Whether players may pick it up.
    pub interactable: bool,
    /// The visual marker of a held object.
    pub highlighted: bool,
    pub policy: DespawnPolicy,
}

/// What handling an interaction message did.
#[derive(Clone, Copy, Debug, PartialEq, Eq, Structural)]
pub enum InteractOutcome {
    Ignored,
    PickedUp(u64),
    Released(u64),
}

pub open spec fn has_object(objs: Seq<SceneObject>, id: u64) -> bool {
    exists|i: int| 0 <= i < objs.len() && #[trigger] objs[i].id == id
}

pub open spec fn unique_ids(objs: Seq<SceneObject>) -> bool {
    forall|i: int, j: int|
        0 <= i < objs.len() && 0 <= j < objs.len() && i != j ==> #[trigger] objs[i].id
            != #[trigger] objs[j].id
}

/// `objs` with the marker of the object `id` set to `on`.
pub open spec fn with_highlight(objs: Seq<SceneObject>, id: u64, on: bool) -> Seq<SceneObject> {
    objs.map_values(
        |o: SceneObject|
            if o.id == id {
                SceneObject { highlighted: on, ..o }
            } else {
                o
            },
    )
}

/// The object `id` is in `objs`, may be picked up and carries no marker.
pub open spec fn pickable(objs: Seq<SceneObject>, id: u64) -> bool {
    exists|i: int|
        0 <= i < objs.len() && #[trigger] objs[i].id == id && objs[i].interactable
            && !objs[i].highlighted
}


/// What an interaction message from `sender` does to a scene with these
/// objects, players and holder edges, where the sender's ray first hit `hit`.
pub open spec fn interact_result(
    objs: Seq<SceneObject>,
    players: Seq<u64>,
    holders: Map<u64, u64>,
    sender: Option<u64>,
    intent: InteractState,
    hit: Option<u64>,
) -> InteractOutcome {
    match sender {
        None => InteractOutcome::Ignored,
        Some(p) => if !players.contains(p) {
            InteractOutcome::Ignored
        } else {
            match intent {
                InteractState::Pickup => match hit {
                    Some(o) => if pickable(objs, o) && !holds_something(holders, p) {
                        InteractOutcome::PickedUp(o)
                    } else {
                        InteractOutcome::Ignored
                    },
                    None => InteractOutcome::Ignored,
                },
                InteractState::LetGo => match spec_held_by(holders, p) {
                    Some(o) => InteractOutcome::Released(o),
                    None => InteractOutcome::Ignored,
                },
            }
        },
    }
}

/// The scene that `sweep` leaves: `objs` without those whose policy has
/// them go at time `now`.
pub open spec fn doomed(o: SceneObject, now: u64) -> bool {
    match o.policy {
        DespawnPolicy::Never => false,
        DespawnPolicy::Timeout { spawned_at, lifetime } => now > spawned_at + lifetime,
        DespawnPolicy::Below { threshold } => o.position.z < threshold,
    }
}

/// The object went below its boundary, which scores a point.
pub open spec fn fell(o: SceneObject) -> bool {
    match o.policy {
        DespawnPolicy::Below { threshold } => o.position.z < threshold,
        _ => false,
    }
}

/// The identities of the objects of `objs` that go at time `now`.
pub open spec fn doomed_ids(objs: Seq<SceneObject>, now: u64) -> Set<u64> {
    Set::new(|id: u64| exists|j: int| 0 <= j < objs.len() && #[trigger] objs[j].id == id && doomed(objs[j], now))
}

/// How many objects of `objs` fell below their boundary.
pub open spec fn fallen_count(objs: Seq<SceneObject>) -> nat
    decreases objs.len(),
{
    if objs.len() == 0 {
        0
    } else {
        fallen_count(objs.drop_last()) + if fell(objs.last()) {
            1nat
        } else {
            0nat
        }
    }
}


/// The objects that stay at time `now`.
pub open spec fn stays_at(now: u64) -> spec_fn(SceneObject) -> bool {
    |o: SceneObject| !doomed(o, now)
}

/// The objects that go at time `now`.
pub open spec fn goes_at(now: u64) -> spec_fn(SceneObject) -> bool {
    |o: SceneObject| doomed(o, now)
}

pub open spec fn id_of(o: SceneObject) -> u64 {
    o.id
}

/// What a sweep did: the objects it despawned, in scene order, and the
/// points it scored.
pub struct SweepReport {
    pub despawned: Vec<u64>,
    pub scored: u64,
}

/// Where a falling box appears: `spread` wide around `start` on both ground
/// axes, drawn by `rx` and `ry`, and one metre above `start`.
pub open spec fn box_position(start: Vec3, spread: i64, rx: u64, ry: u64) -> Vec3 {
    Vec3 {
        x: (start.x + ((rx as int) % (spread as int)) - spread / 2) as i64,
        y: (start.y + ((ry as int) % (spread as int)) - spread / 2) as i64,
        z: (start.z + 1000) as i64,
    }
}

/// The pair at `k` is an edge of `m`.
pub open spec fn edge_at(m: Map<u64, u64>, pairs: Seq<(u64, u64)>, k: int) -> bool {
    m.contains_key(pairs[k].0) && m[pairs[k].0] == pairs[k].1
}

pub open spec fn pairs_are_edges(m: Map<u64, u64>, pairs: Seq<(u64, u64)>) -> bool {
    forall|k: int| 0 <= k < pairs.len() ==> #[trigger] edge_at(m, pairs, k)
}

/// The scene: its objects, its connected players, who holds what, and the
/// score. Objects and players draw their identities from one counter.
pub struct Scene {
    objects: Vec<SceneObject>,
    players: Vec<u64>,
    registry: OwnershipRegistry,
    score: u64,
    next_id: u64,
}

impl Scene {
    pub closed spec fn objects(&self) -> Seq<SceneObject> {
        self.objects@
    }

    pub closed spec fn players(&self) -> Seq<u64> {
        self.players@
    }

    /// Held object to holding player.
    pub closed spec fn holders(&self) -> Map<u64, u64> {
        self.registry@
    }

    pub closed spec fn score(&self) -> u64 {
        self.score
    }

    pub closed spec fn next_id(&self) -> u64 {
        self.next_id
    }

    pub closed spec fn wf(&self) -> bool {
        &&& self.registry.wf()
        &&& unique_ids(self.objects@)
        &&& self.players@.no_duplicates()
        &&& forall|i: int| 0 <= i < self.objects@.len() ==> #[trigger] self.objects@[i].id < self.next_id
        &&& forall|i: int| 0 <= i < self.players@.len() ==> #[trigger] self.players@[i] < self.next_id
        &&& forall|i: int|
            0 <= i < self.players@.len() ==> !has_object(self.objects@, #[trigger] self.players@[i])
        &&& forall|o: u64| #[trigger]
            self.registry@.contains_key(o) ==> has_object(self.objects@, o)
                && self.players@.contains(self.registry@[o])
        &&& forall|i: int|
            0 <= i < self.objects@.len() ==> (#[trigger] self.objects@[i].highlighted
                <==> self.registry@.contains_key(self.objects@[i].id))
    }

    /// An empty scene.
    pub fn new() -> (r: Scene)
        ensures
            r.wf(),
            r.objects() == Seq::<SceneObject>::empty(),
            r.players() == Seq::<u64>::empty(),
            r.holders() == Map::<u64, u64>::empty(),
            r.score() == 0,
            r.next_id() == 1,
    {
        Scene {
            objects: Vec::new(),
            players: Vec::new(),
            registry: OwnershipRegistry::new(),
            score: 0,
            next_id: 1,
        }
    }

    /// The number of points scored.
    pub fn score_value(&self) -> (r: u64)
        ensures
            r == self.score(),
    {
        self.score
    }

    /// The identity the next spawned object or joining player will get.
    pub fn next_id_value(&self) -> (r: u64)
        ensures
            r == self.next_id(),
    {
        self.next_id
    }

    /// The objects of the scene.
    pub fn objects_snapshot(&self) -> (r: Vec<SceneObject>)
        ensures
            r@ == self.objects(),
    {
        self.objects.clone()
    }

    /// The number of objects that may be picked up.
    pub fn interactable_count(&self) -> (r: usize)
        ensures
            r == self.objects().filter(|o: SceneObject| o.interactable).len(),
    {
        let mut n: usize = 0;
        let mut i: usize = 0;
        while i < self.objects.len()
            invariant
                i <= self.objects@.len(),
                n == self.objects@.take(i as int).filter(|o: SceneObject| o.interactable).len(),
                n <= i,
            decreases self.objects@.len() - i,
        {
            proof {
                let s = self.objects@.take(i as int + 1);
                assert(s.drop_last() == self.objects@.take(i as int));
                reveal(Seq::filter);
            }
            if self.objects[i].interactable {
                n = n + 1;
            }
            i = i + 1;
        }
        proof {
            assert(self.objects@.take(i as int) == self.objects@);
        }
        n
    }

    /// Whether `id` is a connected player.
    pub fn is_player(&self, id: u64) -> (r: bool)
        ensures
            r == self.players().contains(id),
    {
        self.player_index(id).is_some()
    }

    fn player_index(&self, id: u64) -> (r: Option<usize>)
        ensures
            r matches Some(i) ==> i < self.players@.len() && self.players@[i as int] == id,
            r is None <==> !self.players@.contains(id),
    {
        let mut i: usize = 0;
        while i < self.players.len()
            invariant
                i <= self.players@.len(),
                forall|j: int| 0 <= j < i ==> self.players@[j] != id,
            decreases self.players@.len() - i,
        {
            if self.players[i] == id {
                return Some(i);
            }
            i = i + 1;
        }
        None
    }

    /// The index of the object `id`, if it is in the scene.
    pub fn find_object(&self, id: u64) -> (r: Option<usize>)
        ensures
            r matches Some(i) ==> i < self.objects().len() && self.objects()[i as int].id == id,
            r is None <==> !has_object(self.objects(), id),
    {
        let mut i: usize = 0;
        while i < self.objects.len()
            invariant
                i <= self.objects@.len(),
                forall|j: int| 0 <= j < i ==> self.objects@[j].id != id,
            decreases self.objects@.len() - i,
        {
            if self.objects[i].id == id {
                return Some(i);
            }
            i = i + 1;
        }
        None
    }

    /// The player holding `object`, if any.
    pub fn holder_of(&self, object: u64) -> (r: Option<u64>)
        requires
            self.wf(),
        ensures
            r == crate::registry::spec_holder_of(self.holders(), object),
    {
        self.registry.holder_of(object)
    }

    /// The object held by `player`, if any.
    pub fn held_by(&self, player: u64) -> (r: Option<u64>)
        requires
            self.wf(),
        ensures
            r == spec_held_by(self.holders(), player),
    {
        self.registry.held_by(player)
    }

    /// Every holder edge, as (object, player) pairs in the order of the objects.
    pub fn hold_pairs(&self) -> (r: Vec<(u64, u64)>)
        requires
            self.wf(),
        ensures
            forall|k: int|
                0 <= k < r@.len() ==> #[trigger] self.holders().contains_key(r@[k].0)
                    && self.holders()[r@[k].0] == r@[k].1,
            forall|o: u64| #[trigger]
                self.holders().contains_key(o) ==> exists|k: int|
                    0 <= k < r@.len() && #[trigger] r@[k].0 == o,
    {
        let mut out: Vec<(u64, u64)> = Vec::new();
        let mut i: usize = 0;
        while i < self.objects.len()
            invariant
                self.wf(),
                i <= self.objects@.len(),
                pairs_are_edges(self.registry@, out@),
                forall|j: int|
                    0 <= j < i && self.registry@.contains_key(#[trigger] self.objects@[j].id)
                        ==> exists|k: int| 0 <= k < out@.len() && out@[k].0 == self.objects@[j].id,
            decreases self.objects@.len() - i,
        {
            let id = self.objects[i].id;
            let ghost prev = out@;
            match self.registry.holder_of(id) {
                Some(p) => {
                    out.push((id, p));
                    proof {
                        assert forall|k: int| 0 <= k < out@.len() implies #[trigger]
                            edge_at(self.registry@, out@, k) by {
                            if k < prev.len() {
                                assert(out@[k] == prev[k]);
                                assert(edge_at(self.registry@, prev, k));
                            }
                        }
                        assert forall|j: int|
                            0 <= j < i + 1 && self.registry@.contains_key(
                                #[trigger] self.objects@[j].id,
                            ) implies exists|k: int|
                            0 <= k < out@.len() && out@[k].0 == self.objects@[j].id by {
                            if j < i {
                                let k = choose|k: int|
                                    0 <= k < prev.len() && prev[k].0 == self.objects@[j].id;
                                assert(out@[k] == prev[k]);
                            } else {
                                assert(out@[prev.len() as int].0 == id);
                            }
                        }
                    }
                },
                None => {},
            }
            i = i + 1;
        }
        proof {
            assert forall|k: int|
                0 <= k < out@.len() implies #[trigger] self.holders().contains_key(out@[k].0)
                    && self.holders()[out@[k].0] == out@[k].1 by {
                assert(edge_at(self.registry@, out@, k));
            }
            assert forall|o: u64| #[trigger] self.holders().contains_key(o) implies exists|k: int|
                0 <= k < out@.len() && #[trigger] out@[k].0 == o by {
                let j = choose|j: int| 0 <= j < self.objects@.len() && #[trigger] self.objects@[j].id == o;
                assert(self.registry@.contains_key(self.objects@[j].id));
            }
        }
        out
    }

    proof fn lemma_highlight_index(objs: Seq<SceneObject>, idx: int, on: bool)
        requires
            unique_ids(objs),
            0 <= idx < objs.len(),
        ensures
            objs.update(idx, SceneObject { highlighted: on, ..objs[idx] }) == with_highlight(
                objs,
                objs[idx].id,
                on,
            ),
    {
        assert(objs.update(idx, SceneObject { highlighted: on, ..objs[idx] }) =~= with_highlight(
            objs,
            objs[idx].id,
            on,
        ));
    }

    /// Sets the marker of the object at `idx`.
    fn set_highlight(&mut self, idx: usize, on: bool)
        requires
            idx < old(self).objects@.len(),
            unique_ids(old(self).objects@),
        ensures
            final(self).objects@ == with_highlight(old(self).objects@, old(self).objects@[idx as int].id, on),
            final(self).players@ == old(self).players@,
            final(self).registry == old(self).registry,
            final(self).score == old(self).score,
            final(self).next_id == old(self).next_id,
    {
        proof {
            Self::lemma_highlight_index(self.objects@, idx as int, on);
        }
        let mut o = self.objects[idx];
        o.highlighted = on;
        self.objects.set(idx, o);
    }

    /// Adds an object with a fresh identity, which it returns.
    pub fn spawn_object(&mut self, position: Vec3, interactable: bool, policy: DespawnPolicy) -> (r: u64)
        requires
            old(self).wf(),
            old(self).next_id() < u64::MAX,
        ensures
            final(self).wf(),
            !has_object(old(self).objects(), r),
            !old(self).players().contains(r),
            final(self).objects() == old(self).objects().push(
                SceneObject { id: r, position, interactable, highlighted: false, policy },
            ),
            final(self).players() == old(self).players(),
            final(self).holders() == old(self).holders(),
            final(self).score() == old(self).score(),
            final(self).next_id() == old(self).next_id() + 1,
    {
        let id = self.next_id;
        self.objects.push(SceneObject { id, position, interactable, highlighted: false, policy });
        self.next_id = self.next_id + 1;
        proof {
            let n = self.objects@.len() - 1;
            assert forall|o: u64| #[trigger] self.registry@.contains_key(o) implies has_object(self.objects@, o)
                && self.players@.contains(self.registry@[o]) by {
                let j = choose|j: int| 0 <= j < old(self).objects@.len() && #[trigger] old(self).objects@[j].id == o;
                assert(self.objects@[j].id == o);
            }
            assert forall|i: int| 0 <= i < self.players@.len() implies !has_object(self.objects@, #[trigger] self.players@[i]) by {
                if has_object(self.objects@, self.players@[i]) {
                    let j = choose|j: int| 0 <= j < self.objects@.len() && #[trigger] self.objects@[j].id == self.players@[i];
                    if j < n {
                        assert(old(self).objects@[j].id == self.players@[i]);
                    }
                }
            }
            assert(!self.registry@.contains_key(id));
            if old(self).players@.contains(id) {
                let k = choose|k: int| 0 <= k < old(self).players@.len() && old(self).players@[k] == id;
                assert(old(self).players@[k] < old(self).next_id);
            }
        }
        id
    }

    /// Adds a player with a fresh identity, which it returns.
    pub fn join_player(&mut self) -> (r: u64)
        requires
            old(self).wf(),
            old(self).next_id() < u64::MAX,
        ensures
            final(self).wf(),
            !has_object(old(self).objects(), r),
            !old(self).players().contains(r),
            final(self).players() == old(self).players().push(r),
            final(self).objects() == old(self).objects(),
            final(self).holders() == old(self).holders(),
            final(self).score() == old(self).score(),
            final(self).next_id() == old(self).next_id() + 1,
    {
        let id = self.next_id;
        proof {
            if old(self).players@.contains(id) {
                let k = choose|k: int| 0 <= k < old(self).players@.len() && old(self).players@[k] == id;
                assert(old(self).players@[k] < old(self).next_id);
            }
            if has_object(self.objects@, id) {
                let j = choose|j: int| 0 <= j < self.objects@.len() && #[trigger] self.objects@[j].id == id;
                assert(self.objects@[j].id < self.next_id);
            }
        }
        self.players.push(id);
        self.next_id = self.next_id + 1;
        proof {
            assert forall|o: u64| #[trigger] self.registry@.contains_key(o) implies has_object(self.objects@, o)
                && self.players@.contains(self.registry@[o]) by {
                let k = choose|k: int| 0 <= k < old(self).players@.len() && old(self).players@[k] == self.registry@[o];
                assert(self.players@[k] == self.registry@[o]);
            }
        }
        id
    }

    /// Handles an interaction message from `sender` (`None` where the
    /// sender is not an authenticated client), whose ray first hit `hit`.
    pub fn handle_interact(&mut self, sender: Option<u64>, intent: InteractState, hit: Option<u64>) -> (r: InteractOutcome)
        requires
            old(self).wf(),
        ensures
            final(self).wf(),
            r == interact_result(old(self).objects(), old(self).players(), old(self).holders(), sender, intent, hit),
            r matches InteractOutcome::PickedUp(o) ==> final(self).holders() == old(self).holders().insert(o, sender.unwrap())
                && final(self).objects() == with_highlight(old(self).objects(), o, true),
            r matches InteractOutcome::Released(o) ==> final(self).holders() == old(self).holders().remove(o)
                && final(self).objects() == with_highlight(old(self).objects(), o, false),
            r is Ignored ==> final(self).holders() == old(self).holders() && final(self).objects() == old(self).objects(),
            final(self).players() == old(self).players(),
            final(self).score() == old(self).score(),
            final(self).next_id() == old(self).next_id(),
    {
        let p = match sender {
            Some(p) => p,
            None => return InteractOutcome::Ignored,
        };
        if !self.is_player(p) {
            return InteractOutcome::Ignored;
        }
        match intent {
            InteractState::Pickup => {
                let o = match hit {
                    Some(o) => o,
                    None => return InteractOutcome::Ignored,
                };
                let idx = match self.find_object(o) {
                    Some(idx) => idx,
                    None => {
                        proof {
                            assert(!pickable(self.objects@, o));
                        }
                        return InteractOutcome::Ignored;
                    },
                };
                proof {
                    if pickable(self.objects@, o) {
                        let j = choose|j: int| 0 <= j < self.objects@.len() && #[trigger] self.objects@[j].id == o
                            && self.objects@[j].interactable && !self.objects@[j].highlighted;
                        assert(j == idx);
                    }
                }
                if !self.objects[idx].interactable || self.objects[idx].highlighted {
                    return InteractOutcome::Ignored;
                }
                if !self.registry.try_acquire(o, p) {
                    return InteractOutcome::Ignored;
                }
                self.set_highlight(idx, true);
                proof {
                    self.lemma_wf_after_marker_change(*old(self), o);
                }
                InteractOutcome::PickedUp(o)
            },
            InteractState::LetGo => {
                let o = match self.registry.release(p) {
                    Some(o) => o,
                    None => return InteractOutcome::Ignored,
                };
                match self.find_object(o) {
                    Some(idx) => {
                        self.set_highlight(idx, false);
                    },
                    None => {},
                }
                proof {
                    self.lemma_wf_after_marker_change(*old(self), o);
                }
                InteractOutcome::Released(o)
            },
        }
    }

    /// After one edge of `o` was added or taken out and its marker set to
    /// match, the scene is well formed again.
    proof fn lemma_wf_after_marker_change(&self, prev: Scene, o: u64)
        requires
            prev.wf(),
            self.registry.wf(),
            has_object(prev.objects@, o),
            self.objects@ == with_highlight(prev.objects@, o, self.registry@.contains_key(o)),
            self.players@ == prev.players@,
            self.next_id == prev.next_id,
            forall|x: u64| x != o ==> (#[trigger] self.registry@.contains_key(x) == prev.registry@.contains_key(x))
                && (self.registry@.contains_key(x) ==> self.registry@[x] == prev.registry@[x]),
            self.registry@.contains_key(o) ==> self.players@.contains(self.registry@[o]),
        ensures
            self.wf(),
    {
        assert forall|x: u64| #[trigger] self.registry@.contains_key(x) implies has_object(self.objects@, x)
            && self.players@.contains(self.registry@[x]) by {
            let j = choose|j: int| 0 <= j < prev.objects@.len() && #[trigger] prev.objects@[j].id == x;
            assert(self.objects@[j].id == x);
        }
        assert forall|i: int| 0 <= i < self.players@.len() implies !has_object(self.objects@, #[trigger] self.players@[i]) by {
            if has_object(self.objects@, self.players@[i]) {
                let j = choose|j: int| 0 <= j < self.objects@.len() && #[trigger] self.objects@[j].id == self.players@[i];
                assert(prev.objects@[j].id == self.players@[i]);
            }
        }
        assert forall|i: int, j: int|
            0 <= i < self.objects@.len() && 0 <= j < self.objects@.len() && i != j implies #[trigger] self.objects@[i].id
                != #[trigger] self.objects@[j].id by {
            assert(prev.objects@[i].id != prev.objects@[j].id);
        }
        assert forall|i: int| 0 <= i < self.objects@.len() implies #[trigger] self.objects@[i].id < self.next_id by {
            assert(prev.objects@[i].id < prev.next_id);
        }
        assert forall|i: int| 0 <= i < self.objects@.len() implies (#[trigger] self.objects@[i].highlighted
            <==> self.registry@.contains_key(self.objects@[i].id)) by {
            assert(prev.objects@[i].highlighted <==> prev.registry@.contains_key(prev.objects@[i].id));
        }
    }


    /// Removes the object `id` and any holder edge of it; `false` where no
    /// such object is in the scene.
    pub fn despawn(&mut self, id: u64) -> (r: bool)
        requires
            old(self).wf(),
        ensures
            final(self).wf(),
            r == has_object(old(self).objects(), id),
            r ==> exists|i: int|
                0 <= i < old(self).objects().len() && #[trigger] old(self).objects()[i].id == id
                    && final(self).objects() == old(self).objects().remove(i),
            !r ==> final(self).objects() == old(self).objects(),
            !has_object(final(self).objects(), id),
            final(self).holders() == old(self).holders().remove(id),
            final(self).players() == old(self).players(),
            final(self).score() == old(self).score(),
            final(self).next_id() == old(self).next_id(),
    {
        let idx = match self.find_object(id) {
            Some(idx) => idx,
            None => {
                proof {
                    assert(!self.registry@.contains_key(id));
                    assert(self.registry@.remove(id) =~= self.registry@);
                }
                return false;
            },
        };
        self.registry.release_object(id);
        self.objects.remove(idx);
        proof {
            let prev = old(self).objects@;
            let i = idx as int;
            assert forall|a: int, b: int|
                0 <= a < self.objects@.len() && 0 <= b < self.objects@.len() && a != b implies #[trigger] self.objects@[a].id
                    != #[trigger] self.objects@[b].id by {
                let a0 = if a < i { a } else { a + 1 };
                let b0 = if b < i { b } else { b + 1 };
                assert(self.objects@[a] == prev[a0]);
                assert(self.objects@[b] == prev[b0]);
            }
            assert forall|a: int| 0 <= a < self.objects@.len() implies #[trigger] self.objects@[a].id < self.next_id by {
                let a0 = if a < i { a } else { a + 1 };
                assert(self.objects@[a] == prev[a0]);
            }
            assert forall|a: int| 0 <= a < self.objects@.len() implies (#[trigger] self.objects@[a].highlighted
                <==> self.registry@.contains_key(self.objects@[a].id)) by {
                let a0 = if a < i { a } else { a + 1 };
                assert(self.objects@[a] == prev[a0]);
                assert(prev[a0].id != prev[i].id);
            }
            assert forall|x: u64| #[trigger] self.registry@.contains_key(x) implies has_object(self.objects@, x)
                && self.players@.contains(self.registry@[x]) by {
                let j = choose|j: int| 0 <= j < prev.len() && #[trigger] prev[j].id == x;
                assert(j != i);
                let j1 = if j < i { j } else { j - 1 };
                assert(self.objects@[j1] == prev[j]);
            }
            assert forall|k: int| 0 <= k < self.players@.len() implies !has_object(self.objects@, #[trigger] self.players@[k]) by {
                if has_object(self.objects@, self.players@[k]) {
                    let a = choose|a: int| 0 <= a < self.objects@.len() && #[trigger] self.objects@[a].id == self.players@[k];
                    let a0 = if a < i { a } else { a + 1 };
                    assert(self.objects@[a] == prev[a0]);
                }
            }
            if has_object(self.objects@, id) {
                let a = choose|a: int| 0 <= a < self.objects@.len() && #[trigger] self.objects@[a].id == id;
                let a0 = if a < i { a } else { a + 1 };
                assert(self.objects@[a] == prev[a0]);
            }
        }
        true
    }

    /// Disconnects `player`: releases what it holds, clearing the marker,
    /// and takes it out of the scene; `false` where it was not connected.
    pub fn disconnect_player(&mut self, player: u64) -> (r: bool)
        requires
            old(self).wf(),
        ensures
            final(self).wf(),
            r == old(self).players().contains(player),
            !final(self).players().contains(player),
            final(self).holders() == without_player(old(self).holders(), player),
            spec_held_by(old(self).holders(), player) matches Some(o) ==> final(self).objects()
                == with_highlight(old(self).objects(), o, false),
            spec_held_by(old(self).holders(), player) is None ==> final(self).objects()
                == old(self).objects(),
            final(self).score() == old(self).score(),
            final(self).next_id() == old(self).next_id(),
    {
        let k = match self.player_index(player) {
            Some(k) => k,
            None => {
                proof {
                    self.registry.lemma_wf_injective();
                    if holds_something(self.registry@, player) {
                        let o = choose|o: u64| #[trigger] self.registry@.contains_key(o) && self.registry@[o] == player;
                        assert(self.players@.contains(self.registry@[o]));
                    }
                    assert(without_player(self.registry@, player) =~= self.registry@);
                }
                return false;
            },
        };
        let released = self.registry.release(player);
        match released {
            Some(o) => {
                match self.find_object(o) {
                    Some(idx) => {
                        self.set_highlight(idx, false);
                    },
                    None => {},
                }
            },
            None => {},
        }
        let ghost mid = *self;
        proof {
            match released {
                Some(o) => {
                    self.lemma_wf_after_marker_change(*old(self), o);
                },
                None => {},
            }
            assert forall|x: u64| #[trigger] mid.registry@.contains_key(x) implies mid.registry@[x] != player by {}
        }
        self.players.remove(k);
        proof {
            let prev = mid.players@;
            let i = k as int;
            assert(prev.no_duplicates());
            assert forall|a: int, b: int| 0 <= a < self.players@.len() && 0 <= b < self.players@.len() && a != b
                implies self.players@[a] != self.players@[b] by {
                let a0 = if a < i { a } else { a + 1 };
                let b0 = if b < i { b } else { b + 1 };
                assert(self.players@[a] == prev[a0]);
                assert(self.players@[b] == prev[b0]);
            }
            assert forall|a: int| 0 <= a < self.players@.len() implies #[trigger] self.players@[a] < self.next_id
                && !has_object(self.objects@, self.players@[a]) by {
                let a0 = if a < i { a } else { a + 1 };
                assert(self.players@[a] == prev[a0]);
            }
            assert forall|x: u64| #[trigger] self.registry@.contains_key(x) implies has_object(self.objects@, x)
                && self.players@.contains(self.registry@[x]) by {
                let q = self.registry@[x];
                let j = choose|j: int| 0 <= j < prev.len() && prev[j] == q;
                assert(j != i);
                let j1 = if j < i { j } else { j - 1 };
                assert(self.players@[j1] == prev[j]);
            }
            if self.players@.contains(player) {
                let a = choose|a: int| 0 <= a < self.players@.len() && self.players@[a] == player;
                let a0 = if a < i { a } else { a + 1 };
                assert(self.players@[a] == prev[a0]);
            }
        }
        true
    }

    /// Moves the object `id` to `position`, as the physics world reports it;
    /// `false` where no such object is in the scene.
    pub fn set_position(&mut self, id: u64, position: Vec3) -> (r: bool)
        requires
            old(self).wf(),
        ensures
            final(self).wf(),
            r == has_object(old(self).objects(), id),
            final(self).objects() == old(self).objects().map_values(
                |o: SceneObject|
                    if o.id == id {
                        SceneObject { position, ..o }
                    } else {
                        o
                    },
            ),
            final(self).holders() == old(self).holders(),
            final(self).players() == old(self).players(),
            final(self).score() == old(self).score(),
            final(self).next_id() == old(self).next_id(),
    {
        let ghost target = old(self).objects@.map_values(
            |o: SceneObject|
                if o.id == id {
                    SceneObject { position, ..o }
                } else {
                    o
                },
        );
        let idx = match self.find_object(id) {
            Some(idx) => idx,
            None => {
                proof {
                    assert(self.objects@ =~= target);
                }
                return false;
            },
        };
        let mut o = self.objects[idx];
        o.position = position;
        self.objects.set(idx, o);
        proof {
            let prev = old(self).objects@;
            assert(self.objects@ =~= target);
            assert forall|x: u64| #[trigger] self.registry@.contains_key(x) implies has_object(self.objects@, x)
                && self.players@.contains(self.registry@[x]) by {
                let j = choose|j: int| 0 <= j < prev.len() && #[trigger] prev[j].id == x;
                assert(self.objects@[j].id == x);
            }
            assert forall|k: int| 0 <= k < self.players@.len() implies !has_object(self.objects@, #[trigger] self.players@[k]) by {
                if has_object(self.objects@, self.players@[k]) {
                    let a = choose|a: int| 0 <= a < self.objects@.len() && #[trigger] self.objects@[a].id == self.players@[k];
                    assert(prev[a].id == self.players@[k]);
                }
            }
            assert forall|a: int, b: int| 0 <= a < self.objects@.len() && 0 <= b < self.objects@.len() && a != b
                implies #[trigger] self.objects@[a].id != #[trigger] self.objects@[b].id by {
                assert(prev[a].id != prev[b].id);
            }
            assert forall|a: int| 0 <= a < self.objects@.len() implies #[trigger] self.objects@[a].id < self.next_id by {
                assert(prev[a].id < self.next_id);
            }
            assert forall|a: int| 0 <= a < self.objects@.len() implies (#[trigger] self.objects@[a].highlighted
                <==> self.registry@.contains_key(self.objects@[a].id)) by {
                assert(prev[a].highlighted <==> self.registry@.contains_key(prev[a].id));
            }
        }
        true
    }


    fn doomed_exec(o: &SceneObject, now: u64) -> (r: bool)
        ensures
            r == doomed(*o, now),
    {
        match o.policy {
            DespawnPolicy::Never => false,
            DespawnPolicy::Timeout { spawned_at, lifetime } => now as u128 > spawned_at as u128
                + lifetime as u128,
            DespawnPolicy::Below { threshold } => o.position.z < threshold,
        }
    }

    fn fell_exec(o: &SceneObject) -> (r: bool)
        ensures
            r == fell(*o),
    {
        match o.policy {
            DespawnPolicy::Below { threshold } => o.position.z < threshold,
            _ => false,
        }
    }

    /// One lifecycle sweep at time `now` (in milliseconds): despawns every
    /// object whose policy has it go, with its holder edge, and adds a point
    /// to the score for each that fell below its boundary.
    pub fn sweep(&mut self, now: u64) -> (r: SweepReport)
        requires
            old(self).wf(),
            old(self).score() + old(self).objects().len() <= u64::MAX,
        ensures
            final(self).wf(),
            final(self).objects() == old(self).objects().filter(stays_at(now)),
            final(self).holders() == old(self).holders().remove_keys(
                doomed_ids(old(self).objects(), now),
            ),
            r.despawned@ == old(self).objects().filter(goes_at(now)).map_values(
                |o: SceneObject| id_of(o),
            ),
            r.scored == fallen_count(old(self).objects()),
            final(self).score() == old(self).score() + fallen_count(old(self).objects()),
            final(self).players() == old(self).players(),
            final(self).next_id() == old(self).next_id(),
    {
        let ghost objs = self.objects@;
        let ghost reg0 = self.registry@;
        let mut kept: Vec<SceneObject> = Vec::new();
        let mut gone: Vec<u64> = Vec::new();
        let mut scored: u64 = 0;
        let mut i: usize = 0;
        while i < self.objects.len()
            invariant
                self.objects@ == objs,
                self.players@ == old(self).players@,
                self.next_id == old(self).next_id,
                self.score == old(self).score,
                self.registry.wf(),
                unique_ids(objs),
                i <= objs.len(),
                self.registry@ == reg0.remove_keys(doomed_ids(objs.take(i as int), now)),
                kept@ == objs.take(i as int).filter(stays_at(now)),
                unique_ids(kept@),
                gone@ == objs.take(i as int).filter(goes_at(now)).map_values(
                    |o: SceneObject| id_of(o),
                ),
                scored == fallen_count(objs.take(i as int)),
                scored <= i,
            decreases objs.len() - i,
        {
            let o = self.objects[i];
            let ghost pre = objs.take(i as int);
            let ghost post = objs.take(i as int + 1);
            proof {
                assert(post.drop_last() == pre);
                assert(post.last() == o);
                reveal(Seq::filter);
                assert(doomed_ids(post, now) =~= if doomed(o, now) {
                    doomed_ids(pre, now).insert(o.id)
                } else {
                    doomed_ids(pre, now)
                }) by {
                    assert forall|id: u64| doomed_ids(pre, now).contains(id) implies doomed_ids(
                        post,
                        now,
                    ).contains(id) by {
                        let j = choose|j: int| 0 <= j < pre.len() && #[trigger] pre[j].id == id && doomed(pre[j], now);
                        assert(post[j] == pre[j]);
                    }
                    if doomed(o, now) {
                        assert(post[i as int].id == o.id);
                    }
                    assert forall|id: u64| doomed_ids(post, now).contains(id) implies (doomed_ids(pre, now).contains(id) || (doomed(o, now) && id == o.id)) by {
                        let j = choose|j: int| 0 <= j < post.len() && #[trigger] post[j].id == id && doomed(post[j], now);
                        if j < i {
                            assert(pre[j] == post[j]);
                        }
                    }
                }
            }
            if Self::doomed_exec(&o, now) {
                self.registry.release_object(o.id);
                let ghost g = gone@;
                gone.push(o.id);
                if Self::fell_exec(&o) {
                    scored = scored + 1;
                }
                proof {
                    assert(self.registry@ =~= reg0.remove_keys(doomed_ids(post, now)));
                    assert(gone@ =~= post.filter(goes_at(now)).map_values(|o: SceneObject| id_of(o)));
                }
            } else {
                let ghost k = kept@;
                proof {
                    assert forall|a: int| 0 <= a < k.len() implies #[trigger] k[a].id != o.id by {
                        assert(pre.filter(stays_at(now)).contains(k[a]));
                        pre.lemma_filter_contains_rev(stays_at(now), k[a]);
                        let j = choose|j: int| 0 <= j < pre.len() && pre[j] == k[a];
                        assert(objs[j] == pre[j]);
                        assert(objs[i as int] == o);
                    }
                }
                kept.push(o);
                proof {
                    assert(kept@ =~= post.filter(stays_at(now)));
                    assert forall|a: int, b: int|
                        0 <= a < kept@.len() && 0 <= b < kept@.len() && a != b implies #[trigger] kept@[a].id
                            != #[trigger] kept@[b].id by {
                        if a < k.len() && b < k.len() {
                            assert(k[a].id != k[b].id);
                        }
                    }
                }
            }
            i = i + 1;
        }
        proof {
            assert(objs.take(objs.len() as int) == objs);
            let d = doomed_ids(objs, now);
            let stays = objs.filter(stays_at(now));
            assert forall|a: int| 0 <= a < stays.len() implies exists|j: int| 0 <= j < objs.len() && objs[j] == #[trigger] stays[a] by {
                assert(stays.contains(stays[a]));
                objs.lemma_filter_contains_rev(stays_at(now), stays[a]);
            }
            assert forall|x: u64| #[trigger] self.registry@.contains_key(x) implies has_object(kept@, x)
                && self.players@.contains(self.registry@[x]) by {
                let j = choose|j: int| 0 <= j < objs.len() && #[trigger] objs[j].id == x;
                assert(!doomed(objs[j], now));
                objs.lemma_filter_contains(stays_at(now), j);
                let a = choose|a: int| 0 <= a < stays.len() && stays[a] == objs[j];
                assert(kept@[a].id == x);
            }
            assert forall|a: int| 0 <= a < kept@.len() implies #[trigger] kept@[a].id < self.next_id
                && (kept@[a].highlighted <==> self.registry@.contains_key(kept@[a].id)) by {
                let j = choose|j: int| 0 <= j < objs.len() && objs[j] == stays[a];
                objs.lemma_filter_pred(stays_at(now), a);
                assert(objs[j].highlighted <==> reg0.contains_key(objs[j].id));
                if d.contains(objs[j].id) {
                    let j2 = choose|j2: int| 0 <= j2 < objs.len() && #[trigger] objs[j2].id == objs[j].id && doomed(objs[j2], now);
                    assert(j2 == j);
                }
            }
            assert forall|k: int| 0 <= k < self.players@.len() implies !has_object(kept@, #[trigger] self.players@[k]) by {
                if has_object(kept@, self.players@[k]) {
                    let a = choose|a: int| 0 <= a < kept@.len() && #[trigger] kept@[a].id == self.players@[k];
                    let j = choose|j: int| 0 <= j < objs.len() && objs[j] == stays[a];
                    assert(objs[j].id == self.players@[k]);
                }
            }
        }
        self.objects = kept;
        self.score = self.score + scored;
        SweepReport { despawned: gone, scored }
    }


    /// Every holder edge of a well-formed scene links an object that is in
    /// the scene to a connected player, and each object's marker is set
    /// exactly when it is held. So once `despawn` has taken an object out, or
    /// `disconnect_player` a player, no edge refers to it.
    pub proof fn lemma_no_dangling_edges(&self)
        requires
            self.wf(),
        ensures
            forall|o: u64| #[trigger]
                self.holders().contains_key(o) ==> has_object(self.objects(), o)
                    && self.players().contains(self.holders()[o]),
            forall|i: int|
                0 <= i < self.objects().len() ==> (#[trigger] self.objects()[i].highlighted
                    <==> self.holders().contains_key(self.objects()[i].id)),
    {
    }

    /// In a well-formed scene no player holds two objects (and, the holder
    /// relation being a map, no object has two holders).
    pub proof fn lemma_single_ownership_and_hold(&self)
        requires
            self.wf(),
        ensures
            crate::registry::injective(self.holders()),
    {
        self.registry.lemma_wf_injective();
    }

    /// An object with a timeout policy is still in the scene after a sweep
    /// at time `now` exactly when no more than its lifetime has passed since
    /// it was spawned.
    pub proof fn lemma_timeout_presence(&self, now: u64, i: int)
        requires
            self.wf(),
            0 <= i < self.objects().len(),
            self.objects()[i].policy is Timeout,
        ensures
            ({
                let o = self.objects()[i];
                let (t, l) = match o.policy {
                    DespawnPolicy::Timeout { spawned_at, lifetime } => (spawned_at, lifetime),
                    _ => (0, 0),
                };
                has_object(self.objects().filter(stays_at(now)), o.id) <==> now <= t + l
            }),
    {
        let objs = self.objects@;
        let o = objs[i];
        let stays = objs.filter(stays_at(now));
        if !doomed(o, now) {
            objs.lemma_filter_contains(stays_at(now), i);
            let a = choose|a: int| 0 <= a < stays.len() && stays[a] == o;
            assert(stays[a].id == o.id);
        }
        if has_object(stays, o.id) {
            let a = choose|a: int| 0 <= a < stays.len() && #[trigger] stays[a].id == o.id;
            objs.lemma_filter_pred(stays_at(now), a);
            assert(stays.contains(stays[a]));
            objs.lemma_filter_contains_rev(stays_at(now), stays[a]);
            let j = choose|j: int| 0 <= j < objs.len() && objs[j] == stays[a];
            assert(objs[j].id == objs[i].id);
        }
    }


    /// Spawns a box that players may pick up at `box_position(start, spread,
    /// rx, ry)`, with `rx` and `ry` drawn at random by the caller; it scores
    /// a point once it drops below `floor`.
    pub fn rain_box(&mut self, start: Vec3, spread: i64, rx: u64, ry: u64, floor: i64) -> (r: u64)
        requires
            old(self).wf(),
            old(self).next_id() < u64::MAX,
            0 < spread <= crate::hold::COORD_MAX,
            crate::hold::coord_ok(start),
        ensures
            final(self).wf(),
            !has_object(old(self).objects(), r),
            final(self).objects() == old(self).objects().push(
                SceneObject {
                    id: r,
                    position: box_position(start, spread, rx, ry),
                    interactable: true,
                    highlighted: false,
                    policy: DespawnPolicy::Below { threshold: floor },
                },
            ),
            final(self).players() == old(self).players(),
            final(self).holders() == old(self).holders(),
            final(self).score() == old(self).score(),
    {
        let sp = spread as u64;
        let ox = (rx % sp) as i64 - spread / 2;
        let oy = (ry % sp) as i64 - spread / 2;
        let position = Vec3 { x: start.x + ox, y: start.y + oy, z: start.z + 1000 };
        self.spawn_object(position, true, DespawnPolicy::Below { threshold: floor })
    }


    /// Leaves a paint mark at `position`, where a paint ray hit: an object
    /// that nobody can pick up and that stays.
    pub fn paint(&mut self, position: Vec3) -> (r: u64)
        requires
            old(self).wf(),
            old(self).next_id() < u64::MAX,
        ensures
            final(self).wf(),
            !has_object(old(self).objects(), r),
            final(self).objects() == old(self).objects().push(
                SceneObject {
                    id: r,
                    position,
                    interactable: false,
                    highlighted: false,
                    policy: DespawnPolicy::Never,
                },
            ),
            final(self).players() == old(self).players(),
            final(self).holders() == old(self).holders(),
            final(self).score() == old(self).score(),
    {
        self.spawn_object(position, false, DespawnPolicy::Never)
    }


    /// A second `LetGo` right after one that released `o` changes nothing:
    /// once `o` is taken out, its holder holds nothing, so the message is
    /// ignored whatever the objects then are and whatever the ray hit.
    pub proof fn lemma_let_go_twice(&self, player: u64, objs: Seq<SceneObject>, hit: Option<u64>)
        requires
            self.wf(),
            spec_held_by(self.holders(), player) is Some,
        ensures
            ({
                let o = spec_held_by(self.holders(), player).unwrap();
                &&& spec_held_by(self.holders().remove(o), player) is None
                &&& interact_result(
                    objs,
                    self.players(),
                    self.holders().remove(o),
                    Some(player),
                    InteractState::LetGo,
                    hit,
                ) == InteractOutcome::Ignored
            }),
    {
        self.registry.lemma_wf_injective();
        let m = self.registry@;
        let o = spec_held_by(m, player).unwrap();
        assert(m.contains_key(o) && m[o] == player);
        if holds_something(m.remove(o), player) {
            let x = choose|x: u64| #[trigger] m.remove(o).contains_key(x) && m.remove(o)[x] == player;
            assert(m.contains_key(x) && m[x] == player);
        }
    }

}

} // verus!
