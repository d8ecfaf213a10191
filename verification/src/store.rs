//! Guild-partitioned storage: a list of slots, one per guild, with unique
//! guild keys. Both stores (suggestions and player mappings) are built on
//! it; all state is partitioned by guild with no cross-guild visibility.

use vstd::prelude::*;

verus! {

/// One guild's entries.
pub struct GuildSlot<T> {
    pub guild: u64,
    pub items: Vec<T>,
}

impl<T: View> GuildSlot<T> {
    /// A slot as a pair of the guild key and the item models.
    pub open spec fn model(&self) -> (u64, Seq<T::V>) {
        (self.guild, self.items@.map_values(|t: T| t@))
    }
}

/// The entries of guild `g`: those of its first slot, or empty where no
/// slot carries `g`. With unique guild keys the first slot is the only one.
pub open spec fn seq_at<V>(s: Seq<(u64, Seq<V>)>, g: u64) -> Seq<V>
    decreases s.len(),
{
    if s.len() == 0 {
        Seq::empty()
    } else if s[0].0 == g {
        s[0].1
    } else {
        seq_at(s.drop_first(), g)
    }
}

/// No two slots carry the same guild key.
pub open spec fn unique_guilds<V>(s: Seq<(u64, Seq<V>)>) -> bool {
    forall|i: int, j: int| 0 <= i < j < s.len() ==> s[i].0 != s[j].0
}

proof fn lemma_unique_drop_first<V>(s: Seq<(u64, Seq<V>)>)
    requires
        unique_guilds(s),
        s.len() > 0,
    ensures
        unique_guilds(s.drop_first()),
{
    let t = s.drop_first();
    assert(forall|a: int, b: int|
        0 <= a < b < t.len() ==> t[a].0 == s[a + 1].0 && t[b].0 == s[b + 1].0);
}

/// Where slot `i` carries guild `g` and keys are unique, `seq_at` reads
/// slot `i`.
pub proof fn lemma_seq_at_found<V>(s: Seq<(u64, Seq<V>)>, i: int)
    requires
        unique_guilds(s),
        0 <= i < s.len(),
    ensures
        seq_at(s, s[i].0) == s[i].1,
    decreases i,
{
    if i > 0 {
        lemma_unique_drop_first(s);
        lemma_seq_at_found(s.drop_first(), i - 1);
    }
}

/// Where no slot carries `g`, `seq_at` is empty.
pub proof fn lemma_seq_at_absent<V>(s: Seq<(u64, Seq<V>)>, g: u64)
    requires
        forall|i: int| 0 <= i < s.len() ==> s[i].0 != g,
    ensures
        seq_at(s, g) == Seq::<V>::empty(),
    decreases s.len(),
{
    if s.len() > 0 {
        lemma_seq_at_absent(s.drop_first(), g);
    }
}

/// Replacing the entries of slot `i` changes `seq_at` at its guild alone,
/// and keeps the keys unique.
pub proof fn lemma_seq_at_update<V>(s: Seq<(u64, Seq<V>)>, i: int, v: Seq<V>)
    requires
        unique_guilds(s),
        0 <= i < s.len(),
    ensures
        unique_guilds(s.update(i, (s[i].0, v))),
        seq_at(s.update(i, (s[i].0, v)), s[i].0) == v,
        forall|g2: u64| g2 != s[i].0 ==> seq_at(s.update(i, (s[i].0, v)), g2) == seq_at(s, g2),
    decreases s.len(),
{
    let s2 = s.update(i, (s[i].0, v));
    assert(unique_guilds(s2)) by {
        assert(forall|a: int| 0 <= a < s.len() ==> s2[a].0 == s[a].0);
    }
    if i == 0 {
        assert(seq_at(s2, s[0].0) == v);
        assert(forall|g2: u64| g2 != s[0].0 ==> seq_at(s2, g2) == seq_at(s2.drop_first(), g2));
        assert(s2.drop_first() =~= s.drop_first());
    } else {
        let t = s.drop_first();
        lemma_unique_drop_first(s);
        lemma_seq_at_update(t, i - 1, v);
        assert(s2.drop_first() =~= t.update(i - 1, (t[i - 1].0, v)));
        assert(s2[0] == s[0]);
        assert(s[i].0 != s[0].0);
        assert(t[i - 1] == s[i]);
        assert(seq_at(s2, s[i].0) == seq_at(s2.drop_first(), s[i].0));
        assert(forall|g2: u64|
            g2 != s[0].0 && g2 != s[i].0 ==> seq_at(s2, g2) == seq_at(s2.drop_first(), g2)
                && seq_at(s, g2) == seq_at(t, g2));
    }
}

/// Appending a slot for a guild no slot carries gives that guild the new
/// entries, changes no other guild, and keeps the keys unique.
pub proof fn lemma_seq_at_push<V>(s: Seq<(u64, Seq<V>)>, g: u64, v: Seq<V>)
    requires
        unique_guilds(s),
        forall|i: int| 0 <= i < s.len() ==> s[i].0 != g,
    ensures
        unique_guilds(s.push((g, v))),
        seq_at(s.push((g, v)), g) == v,
        forall|g2: u64| g2 != g ==> seq_at(s.push((g, v)), g2) == seq_at(s, g2),
    decreases s.len(),
{
    let s2 = s.push((g, v));
    assert(unique_guilds(s2)) by {
        assert(forall|a: int| 0 <= a < s.len() ==> s2[a] == s[a]);
        assert(s2[s.len() as int].0 == g);
    }
    if s.len() == 0 {
        assert(seq_at(s2, g) == v);
        assert(s2.drop_first() =~= Seq::<(u64, Seq<V>)>::empty());
        assert(forall|g2: u64| g2 != g ==> seq_at(s2, g2) == seq_at(s2.drop_first(), g2));
    } else {
        lemma_unique_drop_first(s);
        lemma_seq_at_push(s.drop_first(), g, v);
        assert(s2.drop_first() =~= s.drop_first().push((g, v)));
        assert(forall|g2: u64|
            g2 != g && g2 != s[0].0 ==> seq_at(s2, g2) == seq_at(s2.drop_first(), g2) && seq_at(
                s,
                g2,
            ) == seq_at(s.drop_first(), g2));
    }
}

} // verus!
