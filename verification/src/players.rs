//! The player-mapping store: per-guild mappings from a caller identity to
//! its external game-catalog account. At most one mapping per caller and
//! guild; a later upsert by the same caller replaces the entry in place.
//! The check and the mutation are one unit on `&mut self`.

use vstd::prelude::*;
use crate::store::{GuildSlot, lemma_seq_at_absent, lemma_seq_at_found, lemma_seq_at_push,
    lemma_seq_at_update, seq_at, unique_guilds};

verus! {

/// The model of a player mapping: the caller and its external account.
pub ghost struct PlayerM {
    pub owner: u64,
    pub external: u64,
}

/// A player mapping: the caller identity paired with its external
/// (game-catalog) account identity.
#[derive(Clone, Copy, Debug)]
pub enum Player {
    Steam(u64, u64),
}

impl View for Player {
    type V = PlayerM;

    open spec fn view(&self) -> PlayerM {
        match self {
            Player::Steam(owner, external) => PlayerM { owner: *owner, external: *external },
        }
    }
}

impl Player {
    /// The caller identity the mapping belongs to.
    pub fn discord(&self) -> (r: u64)
        ensures
            r == self@.owner,
    {
        match self {
            Player::Steam(owner, _) => *owner,
        }
    }

    /// The external account identity.
    pub fn steam(&self) -> (r: u64)
        ensures
            r == self@.external,
    {
        match self {
            Player::Steam(_, external) => *external,
        }
    }
}

/// The outcome of an upsert: a fresh entry, a replaced external id, or an
/// already-identical mapping.
#[derive(Clone, Copy, Debug, PartialEq, Eq, Structural)]
pub enum UpsertOutcome {
    Created,
    Updated,
    Unchanged,
}

/// The first index whose mapping belongs to `o`, or the length where none
/// does.
pub open spec fn find_owner(items: Seq<PlayerM>, o: u64) -> int
    decreases items.len(),
{
    if items.len() == 0 {
        0
    } else if items[0].owner == o {
        0
    } else {
        1 + find_owner(items.drop_first(), o)
    }
}

/// Whether some mapping belongs to `o`.
pub open spec fn has_owner(items: Seq<PlayerM>, o: u64) -> bool {
    exists|i: int| 0 <= i < items.len() && items[i].owner == o
}

/// `find_owner` finds the first match, and finds one exactly when one
/// exists.
pub proof fn lemma_find_owner(items: Seq<PlayerM>, o: u64)
    ensures
        0 <= find_owner(items, o) <= items.len(),
        find_owner(items, o) < items.len() ==> items[find_owner(items, o)].owner == o,
        forall|j: int| 0 <= j < find_owner(items, o) ==> items[j].owner != o,
        (find_owner(items, o) < items.len()) == has_owner(items, o),
    decreases items.len(),
{
    if items.len() == 0 {
    } else if items[0].owner == o {
    } else {
        let t = items.drop_first();
        lemma_find_owner(t, o);
        assert(forall|j: int| 0 <= j < t.len() ==> t[j] == items[j + 1]);
        if has_owner(items, o) {
            let w = choose|i: int| 0 <= i < items.len() && items[i].owner == o;
            assert(t[w - 1].owner == o);
        }
        if has_owner(t, o) {
            let w = choose|i: int| 0 <= i < t.len() && t[i].owner == o;
            assert(items[w + 1].owner == o);
        }
        assert forall|j: int| 0 <= j < find_owner(items, o) implies items[j].owner != o by {
            if j > 0 {
                assert(items[j] == t[j - 1]);
            }
        }
    }
}

/// The guild's mappings after an upsert: appended where the caller had
/// none, replaced in place where it had a different external id,
/// unchanged where the identical mapping already stood.
pub open spec fn upsert_result(items: Seq<PlayerM>, o: u64, x: u64) -> Seq<PlayerM> {
    let f = find_owner(items, o);
    if f == items.len() {
        items.push(PlayerM { owner: o, external: x })
    } else if items[f].external == x {
        items
    } else {
        items.update(f, PlayerM { owner: o, external: x })
    }
}

/// The outcome an upsert reports, matching `upsert_result`.
pub open spec fn upsert_outcome(items: Seq<PlayerM>, o: u64, x: u64) -> UpsertOutcome {
    let f = find_owner(items, o);
    if f == items.len() {
        UpsertOutcome::Created
    } else if items[f].external == x {
        UpsertOutcome::Unchanged
    } else {
        UpsertOutcome::Updated
    }
}

/// At most one mapping per caller.
pub open spec fn owners_unique(items: Seq<PlayerM>) -> bool {
    forall|i: int, j: int| 0 <= i < j < items.len() ==> items[i].owner != items[j].owner
}

/// The stored mappings of the listed callers, one per caller that has
/// one, in the callers' order.
pub open spec fn lookups(items: Seq<PlayerM>, callers: Seq<u64>) -> Seq<PlayerM>
    decreases callers.len(),
{
    if callers.len() == 0 {
        Seq::<PlayerM>::empty()
    } else {
        lookups(items, callers.drop_last()) + (if find_owner(items, callers.last())
            < items.len() {
            seq![items[find_owner(items, callers.last())]]
        } else {
            Seq::<PlayerM>::empty()
        })
    }
}

/// The player-mapping store: per-guild mapping lists, guild keys unique,
/// at most one mapping per caller and guild.
pub struct PlayerContainer {
    pub slots: Vec<GuildSlot<Player>>,
}

impl PlayerContainer {
    /// The store as a list of (guild, mappings) pairs.
    pub open spec fn model(&self) -> Seq<(u64, Seq<PlayerM>)> {
        self.slots@.map_values(|sl: GuildSlot<Player>| sl.model())
    }

    /// The mappings of guild `g`; empty where the guild has none.
    pub open spec fn at(&self, g: u64) -> Seq<PlayerM> {
        seq_at(self.model(), g)
    }

    /// Well-formed: guild keys unique, owners unique per guild.
    pub open spec fn wf(&self) -> bool {
        &&& unique_guilds(self.model())
        &&& forall|g: u64| owners_unique(#[trigger] self.at(g))
    }

    /// An empty store.
    pub fn new() -> (r: Self)
        ensures
            r.wf(),
            forall|g: u64| r.at(g) == Seq::<PlayerM>::empty(),
    {
        let r = PlayerContainer { slots: Vec::new() };
        proof {
            assert(r.model() =~= Seq::<(u64, Seq<PlayerM>)>::empty());
            assert forall|g: u64| r.at(g) == Seq::<PlayerM>::empty() by {
                lemma_seq_at_absent(r.model(), g);
            }
        }
        r
    }

    /// The index of guild `g`'s slot.
    #[verifier::loop_isolation(false)]
    fn find_slot(&self, g: u64) -> (r: Option<usize>)
        ensures
            match r {
                Some(i) => i < self.slots@.len() && self.model()[i as int].0 == g,
                None => forall|i: int| 0 <= i < self.model().len() ==> self.model()[i].0 != g,
            },
    {
        let n = self.slots.len();
        let mut i: usize = 0;
        while i < n
            invariant
                0 <= i <= n,
                forall|j: int| 0 <= j < i ==> self.model()[j].0 != g,
            decreases n - i,
        {
            if self.slots[i].guild == g {
                return Some(i);
            }
            i = i + 1;
        }
        None
    }

    /// Stores `external` as caller `owner`'s external account in guild
    /// `guild`: creates the mapping where the caller has none, replaces it
    /// in place where it differs, and reports an identical one unchanged.
    /// The check and the mutation are one unit on `&mut self`.
    #[verifier::loop_isolation(false)]
    pub fn upsert_external_id(&mut self, guild: u64, owner: u64, external: u64) -> (r:
        UpsertOutcome)
        requires
            old(self).wf(),
        ensures
            final(self).wf(),
            final(self).at(guild) == upsert_result(old(self).at(guild), owner, external),
            forall|g2: u64| g2 != guild ==> final(self).at(g2) == old(self).at(g2),
            r == upsert_outcome(old(self).at(guild), owner, external),
    {
        let ghost p = PlayerM { owner, external };
        proof {
            lemma_find_owner(old(self).at(guild), owner);
        }
        match self.find_slot(guild) {
            None => {
                proof {
                    lemma_seq_at_absent(self.model(), guild);
                }
                let ghost pre = self.model();
                let mut items: Vec<Player> = Vec::new();
                items.push(Player::Steam(owner, external));
                let slot = GuildSlot { guild, items };
                self.slots.push(slot);
                proof {
                    assert(self.model() =~~= pre.push((guild, seq![p])));
                    lemma_seq_at_push(pre, guild, seq![p]);
                    assert forall|g2: u64| owners_unique(#[trigger] self.at(g2)) by {
                        if g2 != guild {
                            assert(self.at(g2) == old(self).at(g2));
                        }
                    }
                }
                UpsertOutcome::Created
            },
            Some(si) => {
                proof {
                    lemma_seq_at_found(self.model(), si as int);
                }
                let ghost items0 = self.at(guild);
                let n = self.slots[si].items.len();
                let mut i: usize = 0;
                while i < n
                    invariant
                        *self == *old(self),
                        si < self.slots@.len(),
                        n == self.slots@[si as int].items@.len(),
                        items0 == self.model()[si as int].1,
                        0 <= i <= n,
                        forall|j: int| 0 <= j < i ==> items0[j].owner != owner,
                    decreases n - i,
                {
                    if self.slots[si].items[i].discord() == owner {
                        proof {
                            lemma_find_owner(items0, owner);
                            assert(items0[i as int] == self.slots@[si as int].items@[i as int]@);
                            assert(has_owner(items0, owner)) by {
                                assert(0 <= i < items0.len() && items0[i as int].owner == owner);
                            }
                            let f = find_owner(items0, owner);
                            if f < i as int {
                                assert(items0[f].owner != owner);
                            }
                            if f > i as int {
                                assert(items0[i as int].owner != owner);
                            }
                            assert(f == i as int);
                        }
                        if self.slots[si].items[i].steam() == external {
                            return UpsertOutcome::Unchanged;
                        }
                        let ghost pre = self.model();
                        let sl = &mut self.slots[si];
                        sl.items[i] = Player::Steam(owner, external);
                        proof {
                            let items1 = items0.update(i as int, p);
                            assert(self.slots@[si as int].items@.map_values(|t: Player| t@)
                                =~= items1);
                            assert(self.model() =~~= pre.update(si as int, (guild, items1)));
                            lemma_seq_at_update(pre, si as int, items1);
                            assert forall|g2: u64| owners_unique(#[trigger] self.at(g2)) by {
                                if g2 == guild {
                                    assert(forall|j: int|
                                        0 <= j < items1.len() ==> items1[j].owner
                                            == items0[j].owner);
                                } else {
                                    assert(self.at(g2) == old(self).at(g2));
                                }
                            }
                        }
                        return UpsertOutcome::Updated;
                    }
                    i = i + 1;
                }
                proof {
                    lemma_find_owner(items0, owner);
                }
                let ghost pre = self.model();
                let sl = &mut self.slots[si];
                sl.items.push(Player::Steam(owner, external));
                proof {
                    let items1 = items0.push(p);
                    assert(self.slots@[si as int].items@.map_values(|t: Player| t@) =~= items1);
                    assert(self.model() =~~= pre.update(si as int, (guild, items1)));
                    lemma_seq_at_update(pre, si as int, items1);
                    assert forall|g2: u64| owners_unique(#[trigger] self.at(g2)) by {
                        if g2 == guild {
                            assert forall|a: int, b: int|
                                0 <= a < b < items1.len() implies items1[a].owner
                                != items1[b].owner by {
                                if b == items0.len() {
                                    assert(items1[a] == items0[a]);
                                    assert(items1[b] == p);
                                }
                            }
                        } else {
                            assert(self.at(g2) == old(self).at(g2));
                        }
                    }
                }
                UpsertOutcome::Created
            },
        }
    }

    /// The stored mappings of the listed callers in guild `guild`, one
    /// entry per caller that has a mapping, in the callers' order; empty
    /// where none match. Never an error.
    #[verifier::loop_isolation(false)]
    pub fn external_ids_for(&self, guild: u64, callers: &Vec<u64>) -> (r: Vec<Player>)
        requires
            self.wf(),
        ensures
            r@.map_values(|t: Player| t@) == lookups(self.at(guild), callers@),
    {
        let ghost items = self.at(guild);
        let mut r: Vec<Player> = Vec::new();
        let mut i: usize = 0;
        while i < callers.len()
            invariant
                0 <= i <= callers@.len(),
                r@.map_values(|t: Player| t@) =~= lookups(items, callers@.subrange(0, i as int)),
            decreases callers@.len() - i,
        {
            let c = callers[i];
            match self.find_mapping(guild, c) {
                Some(pl) => {
                    r.push(pl);
                },
                None => {},
            }
            proof {
                lemma_find_owner(items, callers@[i as int]);
                let pre = callers@.subrange(0, i as int);
                let cur = callers@.subrange(0, i + 1);
                assert(cur.drop_last() =~= pre);
                assert(cur.last() == callers@[i as int]);
                assert(r@.map_values(|t: Player| t@) =~= lookups(items, cur));
            }
            i = i + 1;
        }
        proof {
            assert(callers@.subrange(0, callers@.len() as int) =~= callers@);
        }
        r
    }

    /// Caller `owner`'s mapping in guild `guild`, where it has one.
    #[verifier::loop_isolation(false)]
    pub fn find_mapping(&self, guild: u64, owner: u64) -> (r: Option<Player>)
        requires
            self.wf(),
        ensures
            ({
                let items = self.at(guild);
                let f = find_owner(items, owner);
                match r {
                    Some(pl) => f < items.len() && pl@ == items[f],
                    None => !has_owner(items, owner),
                }
            }),
    {
        proof {
            lemma_find_owner(self.at(guild), owner);
        }
        match self.find_slot(guild) {
            None => {
                proof {
                    lemma_seq_at_absent(self.model(), guild);
                }
                None
            },
            Some(si) => {
                proof {
                    lemma_seq_at_found(self.model(), si as int);
                }
                let ghost items = self.at(guild);
                let n = self.slots[si].items.len();
                let mut i: usize = 0;
                while i < n
                    invariant
                        si < self.slots@.len(),
                        n == self.slots@[si as int].items@.len(),
                        items == self.model()[si as int].1,
                        0 <= i <= n,
                        forall|j: int| 0 <= j < i ==> items[j].owner != owner,
                    decreases n - i,
                {
                    if self.slots[si].items[i].discord() == owner {
                        proof {
                            lemma_find_owner(items, owner);
                            assert(items[i as int] == self.slots@[si as int].items@[i as int]@);
                            assert(has_owner(items, owner)) by {
                                assert(0 <= i < items.len() && items[i as int].owner == owner);
                            }
                            let f = find_owner(items, owner);
                            if f < i as int {
                                assert(items[f].owner != owner);
                            }
                            if f > i as int {
                                assert(items[i as int].owner != owner);
                            }
                        }
                        return Some(self.slots[si].items[i]);
                    }
                    i = i + 1;
                }
                None
            },
        }
    }
}

/// Upserting the same `(owner, external)` pair twice is idempotent: the
/// second call reports `Unchanged` and leaves the mappings exactly as the
/// first call left them.
pub proof fn lemma_upsert_idempotent(items: Seq<PlayerM>, o: u64, x: u64)
    ensures
        upsert_result(upsert_result(items, o, x), o, x) == upsert_result(items, o, x),
        upsert_outcome(upsert_result(items, o, x), o, x) == UpsertOutcome::Unchanged,
{
    lemma_find_owner(items, o);
    let p = PlayerM { owner: o, external: x };
    let once = upsert_result(items, o, x);
    let f = find_owner(items, o);
    lemma_find_owner(once, o);
    let f2 = find_owner(once, o);
    if f == items.len() {
        assert(once[items.len() as int] == p);
        assert(has_owner(once, o));
        if f2 < items.len() {
            assert(once[f2] == items[f2]);
        }
        assert(f2 == items.len());
        assert(once[f2].external == x);
    } else if items[f].external == x {
        assert(once == items);
    } else {
        assert(once[f] == p);
        assert(has_owner(once, o)) by {
            assert(0 <= f < once.len() && once[f].owner == o);
        }
        if f2 < f {
            assert(once[f2] == items[f2]);
            assert(items[f2].owner != o);
        }
        if f2 > f {
            assert(once[f].owner != o);
        }
        assert(f2 == f);
        assert(once[f2].external == x);
    }
}

} // verus!
