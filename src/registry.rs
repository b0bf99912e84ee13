use vstd::prelude::*;
use std::collections::HashMap;

verus! {

broadcast use vstd::std_specs::hash::group_hash_axioms;

/// `back` is exactly the inverse of `fwd`: the relation that the two maps
/// describe is a partial injective function in both directions.
pub open spec fn inverse_maps(fwd: Map<u64, u64>, back: Map<u64, u64>) -> bool {
    &&& forall|o: u64| #[trigger]
        fwd.contains_key(o) ==> back.contains_key(fwd[o]) && back[fwd[o]] == o
    &&& forall|p: u64| #[trigger]
        back.contains_key(p) ==> fwd.contains_key(back[p]) && fwd[back[p]] == p
}

/// The holder relation between held objects and the players holding them.
///
/// Both directions are kept so that either key is looked up directly; the
/// well-formedness predicate says that each map is the inverse of the other.
pub struct OwnershipRegistry {
    holder: HashMap<u64, u64>,
    held: HashMap<u64, u64>,
}

impl View for OwnershipRegistry {
    type V = Map<u64, u64>;

    /// Held object to holding player.
    closed spec fn view(&self) -> Map<u64, u64> {
        self.holder@
    }
}

/// The player holding `object` in the relation `m`, if any.
pub open spec fn spec_holder_of(m: Map<u64, u64>, object: u64) -> Option<u64> {
    if m.contains_key(object) {
        Some(m[object])
    } else {
        None
    }
}

/// Whether `player` holds some object in the relation `m`.
pub open spec fn holds_something(m: Map<u64, u64>, player: u64) -> bool {
    exists|o: u64| #[trigger] m.contains_key(o) && m[o] == player
}

/// The object held by `player` in the relation `m`, if any.
pub open spec fn spec_held_by(m: Map<u64, u64>, player: u64) -> Option<u64> {
    if holds_something(m, player) {
        Some(choose|o: u64| #[trigger] m.contains_key(o) && m[o] == player)
    } else {
        None
    }
}

/// No two objects share a holder.
pub open spec fn injective(m: Map<u64, u64>) -> bool {
    forall|a: u64, b: u64|
        #[trigger] m.contains_key(a) && #[trigger] m.contains_key(b) && m[a] == m[b] ==> a == b
}

/// The relation with whatever `player` holds taken out.
pub open spec fn without_player(m: Map<u64, u64>, player: u64) -> Map<u64, u64> {
    m.restrict(m.dom().filter(|o: u64| m[o] != player))
}

impl OwnershipRegistry {
    pub closed spec fn wf(&self) -> bool {
        inverse_maps(self.holder@, self.held@)
    }

    /// An empty registry.
    pub fn new() -> (r: Self)
        ensures
            r.wf(),
            r@ == Map::<u64, u64>::empty(),
    {
        OwnershipRegistry { holder: HashMap::new(), held: HashMap::new() }
    }

    pub proof fn lemma_wf_injective(&self)
        requires
            self.wf(),
        ensures
            injective(self@),
    {
        assert forall|a: u64, b: u64|
            #[trigger] self@.contains_key(a) && #[trigger] self@.contains_key(b) && self@[a]
                == self@[b] implies a == b by {
            assert(self.held@[self.holder@[a]] == a);
            assert(self.held@[self.holder@[b]] == b);
        }
    }

    proof fn lemma_held_agrees(&self, player: u64)
        requires
            self.wf(),
        ensures
            self.held@.contains_key(player) <==> holds_something(self@, player),
            self.held@.contains_key(player) ==> spec_held_by(self@, player) == Some(
                self.held@[player],
            ),
    {
        self.lemma_wf_injective();
        if self.held@.contains_key(player) {
            let o = self.held@[player];
            assert(self@.contains_key(o) && self@[o] == player);
            let c = choose|o: u64| #[trigger] self@.contains_key(o) && self@[o] == player;
            assert(c == o);
        } else {
            if holds_something(self@, player) {
                let c = choose|o: u64| #[trigger] self@.contains_key(o) && self@[o] == player;
                assert(self.held@.contains_key(self.holder@[c]));
            }
        }
    }

    /// The player holding `object`, if any.
    pub fn holder_of(&self, object: u64) -> (r: Option<u64>)
        requires
            self.wf(),
        ensures
            r == spec_holder_of(self@, object),
    {
        match self.holder.get(&object) {
            Some(p) => Some(*p),
            None => None,
        }
    }

    /// The object held by `player`, if any.
    pub fn held_by(&self, player: u64) -> (r: Option<u64>)
        requires
            self.wf(),
        ensures
            r == spec_held_by(self@, player),
            r is Some <==> holds_something(self@, player),
    {
        proof {
            self.lemma_held_agrees(player);
        }
        match self.held.get(&player) {
            Some(o) => Some(*o),
            None => None,
        }
    }

    /// Records that `player` holds `object`, provided that the object has no
    /// holder and the player holds nothing; otherwise nothing changes.
    pub fn try_acquire(&mut self, object: u64, player: u64) -> (r: bool)
        requires
            old(self).wf(),
        ensures
            final(self).wf(),
            r == (!old(self)@.contains_key(object) && !holds_something(old(self)@, player)),
            r ==> final(self)@ == old(self)@.insert(object, player),
            !r ==> final(self)@ == old(self)@,
    {
        proof {
            self.lemma_held_agrees(player);
        }
        if self.holder.contains_key(&object) || self.held.contains_key(&player) {
            return false;
        }
        self.holder.insert(object, player);
        self.held.insert(player, object);
        true
    }

    /// Takes out the edge of whatever `player` holds, and returns that object.
    pub fn release(&mut self, player: u64) -> (r: Option<u64>)
        requires
            old(self).wf(),
        ensures
            final(self).wf(),
            r == spec_held_by(old(self)@, player),
            final(self)@ == without_player(old(self)@, player),
            r matches Some(o) ==> final(self)@ == old(self)@.remove(o),
            r is None ==> final(self)@ == old(self)@,
    {
        proof {
            self.lemma_held_agrees(player);
            self.lemma_wf_injective();
        }
        match self.held.remove(&player) {
            Some(o) => {
                self.holder.remove(&o);
                proof {
                    assert(final(self)@ =~= without_player(old(self)@, player));
                }
                Some(o)
            },
            None => {
                proof {
                    assert(final(self)@ =~= without_player(old(self)@, player));
                }
                None
            },
        }
    }

    /// Takes out the edge of `object`, whoever holds it, and returns its holder.
    pub fn release_object(&mut self, object: u64) -> (r: Option<u64>)
        requires
            old(self).wf(),
        ensures
            final(self).wf(),
            r == spec_holder_of(old(self)@, object),
            final(self)@ == old(self)@.remove(object),
    {
        match self.holder.remove(&object) {
            Some(p) => {
                self.held.remove(&p);
                proof {
                    assert(final(self)@ =~= old(self)@.remove(object));
                }
                Some(p)
            },
            None => {
                proof {
                    assert(final(self)@ =~= old(self)@.remove(object));
                }
                None
            },
        }
    }
}

/// No object has two holders: any two players recorded as holding `object`
/// are the same player.
pub proof fn lemma_single_ownership(r: &OwnershipRegistry, object: u64, first: u64, second: u64)
    requires
        r.wf(),
        r@.contains_key(object) && r@[object] == first,
        r@.contains_key(object) && r@[object] == second,
    ensures
        first == second,
{
}

/// No player holds two objects: any two objects recorded as held by
/// `player` are the same object.
pub proof fn lemma_single_hold(r: &OwnershipRegistry, player: u64, first: u64, second: u64)
    requires
        r.wf(),
        r@.contains_key(first) && r@[first] == player,
        r@.contains_key(second) && r@[second] == player,
    ensures
        first == second,
{
    r.lemma_wf_injective();
}

/// Releasing twice in a row for the same player changes the relation only
/// the first time: after one release the player holds nothing, and taking
/// out what it holds again leaves the relation as it is.
pub proof fn lemma_release_idempotent(m: Map<u64, u64>, player: u64)
    ensures
        spec_held_by(without_player(m, player), player) is None,
        without_player(without_player(m, player), player) == without_player(m, player),
{
    let m1 = without_player(m, player);
    if holds_something(m1, player) {
        let o = choose|o: u64| #[trigger] m1.contains_key(o) && m1[o] == player;
        assert(m.dom().filter(|x: u64| m[x] != player).contains(o));
    }
    assert(without_player(m1, player) =~= m1);
}

} // verus!
