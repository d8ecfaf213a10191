//! The suggestion store: per-guild lists of proposed games with duplicate
//! detection by normalized title and owner-gated removal. Each mutating
//! operation performs its check and its mutation as one unit on `&mut self`,
//! so callers that serialize access (one exclusive lock around the call)
//! get the check-then-mutate sequence atomically.

use vstd::prelude::*;
use crate::catalog::{App, AppM, url_of};
use crate::errors::SuggestError;
use crate::store::{GuildSlot, lemma_seq_at_absent, lemma_seq_at_found, lemma_seq_at_push,
    lemma_seq_at_update, seq_at, unique_guilds};
use crate::text::{norm, normalized};

verus! {

/// The model of a free-text suggestion.
pub ghost struct TextM {
    pub title: Seq<char>,
    pub genre: Option<Seq<char>>,
    pub url: Option<Seq<char>>,
}

/// The model of a suggestion: owner plus either a catalog record or free
/// text.
pub ghost enum SuggM {
    Steam { owner: u64, app: AppM },
    PlainText { owner: u64, text: TextM },
}

impl SuggM {
    /// The caller that created the suggestion; only it may remove it.
    pub open spec fn owner(self) -> u64 {
        match self {
            SuggM::Steam { owner, .. } => owner,
            SuggM::PlainText { owner, .. } => owner,
        }
    }

    /// The display title, regardless of variant.
    pub open spec fn title(self) -> Seq<char> {
        match self {
            SuggM::Steam { app, .. } => app.name,
            SuggM::PlainText { text, .. } => text.title,
        }
    }

    /// The normalized title: the key under which duplicates are detected.
    pub open spec fn key(self) -> Seq<char> {
        norm(self.title())
    }
}

/// A free-text suggestion: a title with optional genre and URL.
pub struct TextSuggestion {
    pub title: String,
    pub genre: Option<String>,
    pub url: Option<String>,
}

impl View for TextSuggestion {
    type V = TextM;

    open spec fn view(&self) -> TextM {
        TextM {
            title: self.title@,
            genre: match self.genre {
                Some(ref g) => Some(g@),
                None => None,
            },
            url: match self.url {
                Some(ref u) => Some(u@),
                None => None,
            },
        }
    }
}

impl Default for TextSuggestion {
    /// An empty free-text suggestion.
    fn default() -> (r: Self)
        ensures
            r@ == (TextM { title: Seq::<char>::empty(), genre: None, url: None }),
    {
        TextSuggestion { title: String::new(), genre: None, url: None }
    }
}

impl TextSuggestion {
    /// A copy of this suggestion.
    pub fn duplicate(&self) -> (r: TextSuggestion)
        ensures
            r@ == self@,
    {
        TextSuggestion {
            title: self.title.clone(),
            genre: match &self.genre {
                Some(g) => Some(g.clone()),
                None => None,
            },
            url: match &self.url {
                Some(u) => Some(u.clone()),
                None => None,
            },
        }
    }

    /// The one-line description of this suggestion.
    pub fn describe(&self) -> (r: String)
        ensures
            r@ == describe_text(self@),
    {
        let mut r = String::from_str("Title: ");
        r.append(self.title.as_str());
        match &self.genre {
            Some(g) => {
                r.append(" | Genre: ");
                r.append(g.as_str());
            },
            None => {},
        }
        match &self.url {
            Some(u) => {
                r.append(" | Url: ");
                r.append(u.as_str());
            },
            None => {},
        }
        r
    }
}

/// The one-line description of a free-text suggestion.
pub open spec fn describe_text(t: TextM) -> Seq<char> {
    "Title: "@ + t.title + (match t.genre {
        Some(g) => " | Genre: "@ + g,
        None => Seq::<char>::empty(),
    }) + (match t.url {
        Some(u) => " | Url: "@ + u,
        None => Seq::<char>::empty(),
    })
}

/// A proposed game: a catalog record or free text, tagged with its owner.
pub enum Suggestion {
    Steam(u64, App),
    PlainText(u64, TextSuggestion),
}

impl View for Suggestion {
    type V = SuggM;

    open spec fn view(&self) -> SuggM {
        match self {
            Suggestion::Steam(owner, app) => SuggM::Steam { owner: *owner, app: app@ },
            Suggestion::PlainText(owner, text) => SuggM::PlainText { owner: *owner, text: text@ },
        }
    }
}

impl Suggestion {
    /// The display title, regardless of variant.
    pub fn title(&self) -> (r: &str)
        ensures
            r@ == self@.title(),
    {
        match self {
            Suggestion::Steam(_, app) => app.name.as_str(),
            Suggestion::PlainText(_, text) => text.title.as_str(),
        }
    }

    /// The caller that created the suggestion.
    pub fn user(&self) -> (r: u64)
        ensures
            r == self@.owner(),
    {
        match self {
            Suggestion::Steam(owner, _) => *owner,
            Suggestion::PlainText(owner, _) => *owner,
        }
    }

    /// A copy of this suggestion.
    pub fn duplicate(&self) -> (r: Suggestion)
        ensures
            r@ == self@,
    {
        match self {
            Suggestion::Steam(owner, app) => Suggestion::Steam(*owner, app.duplicate()),
            Suggestion::PlainText(owner, text) => Suggestion::PlainText(
                *owner,
                text.duplicate(),
            ),
        }
    }
}

impl Default for Suggestion {
    /// An empty free-text suggestion by the zero caller.
    fn default() -> (r: Self)
        ensures
            r@ == (SuggM::PlainText {
                owner: 0,
                text: TextM { title: Seq::<char>::empty(), genre: None, url: None },
            }),
    {
        Suggestion::PlainText(0, TextSuggestion::default())
    }
}

/// Whether some entry already carries the normalized title `k`.
pub open spec fn has_key(items: Seq<SuggM>, k: Seq<char>) -> bool {
    exists|i: int| 0 <= i < items.len() && items[i].key() == k
}

/// Whether adding `c` succeeds: no existing entry carries its normalized
/// title.
pub open spec fn add_ok(items: Seq<SuggM>, c: SuggM) -> bool {
    !has_key(items, c.key())
}

/// The guild's list after an add: appended on success, unchanged on a
/// duplicate.
pub open spec fn add_result(items: Seq<SuggM>, c: SuggM) -> Seq<SuggM> {
    if add_ok(items, c) {
        items.push(c)
    } else {
        items
    }
}

/// The first index whose entry carries the normalized title `k`, or the
/// length where none does.
pub open spec fn find_key(items: Seq<SuggM>, k: Seq<char>) -> int
    decreases items.len(),
{
    if items.len() == 0 {
        0
    } else if items[0].key() == k {
        0
    } else {
        1 + find_key(items.drop_first(), k)
    }
}

/// `find_key` finds the first match, and finds one exactly when one
/// exists.
pub proof fn lemma_find_key(items: Seq<SuggM>, k: Seq<char>)
    ensures
        0 <= find_key(items, k) <= items.len(),
        find_key(items, k) < items.len() ==> items[find_key(items, k)].key() == k,
        forall|j: int| 0 <= j < find_key(items, k) ==> items[j].key() != k,
        (find_key(items, k) < items.len()) == has_key(items, k),
    decreases items.len(),
{
    if items.len() == 0 {
    } else if items[0].key() == k {
    } else {
        let t = items.drop_first();
        lemma_find_key(t, k);
        assert(forall|j: int| 0 <= j < t.len() ==> t[j] == items[j + 1]);
        if has_key(items, k) {
            let w = choose|i: int| 0 <= i < items.len() && items[i].key() == k;
            assert(t[w - 1].key() == k);
        }
        if has_key(t, k) {
            let w = choose|i: int| 0 <= i < t.len() && t[i].key() == k;
            assert(items[w + 1].key() == k);
        }
        assert forall|j: int| 0 <= j < find_key(items, k) implies items[j].key() != k by {
            if j > 0 {
                assert(items[j] == t[j - 1]);
            }
        }
    }
}

/// A list with the entry at `i` removed by swapping the last entry into
/// its place: removal is constant-time and may reorder the tail.
pub open spec fn swap_removed<V>(items: Seq<V>, i: int) -> Seq<V> {
    items.update(i, items.last()).drop_last()
}

/// The guild's list after a removal request: the matching entry is swap-
/// removed when the requester owns it; the list is unchanged when there is
/// no match or the requester is not the owner.
pub open spec fn remove_result(items: Seq<SuggM>, requester: u64, k: Seq<char>) -> Seq<SuggM> {
    let f = find_key(items, k);
    if f == items.len() {
        items
    } else if items[f].owner() != requester {
        items
    } else {
        swap_removed(items, f)
    }
}

/// No two entries carry the same normalized title.
pub open spec fn norm_unique(items: Seq<SuggM>) -> bool {
    forall|i: int, j: int| 0 <= i < j < items.len() ==> items[i].key() != items[j].key()
}

proof fn lemma_norm_unique_swap_removed(items: Seq<SuggM>, f: int)
    requires
        norm_unique(items),
        0 <= f < items.len(),
    ensures
        norm_unique(swap_removed(items, f)),
{
    let r = swap_removed(items, f);
    assert forall|i: int, j: int| 0 <= i < j < r.len() implies r[i].key() != r[j].key() by {
        if i == f {
            assert(r[i] == items[items.len() - 1]);
            assert(r[j] == items[j]);
        } else if j == f {
            assert(r[j] == items[items.len() - 1]);
            assert(r[i] == items[i]);
        } else {
            assert(r[i] == items[i]);
            assert(r[j] == items[j]);
        }
    }
}

/// One line of the suggestion listing.
pub open spec fn render_one(s: SuggM) -> Seq<char> {
    match s {
        SuggM::Steam { app, .. } => "Steam: "@ + app.name + " - "@ + url_of(app.id) + "\r\n"@,
        SuggM::PlainText { text, .. } => "Title: "@ + text.title + (match text.genre {
            Some(g) => " Genre: "@ + g,
            None => Seq::<char>::empty(),
        }) + (match text.url {
            Some(u) => "Url: "@ + u,
            None => Seq::<char>::empty(),
        }) + "\r\n"@,
    }
}

/// The suggestion listing: one line per entry, in store order.
pub open spec fn render_seq(items: Seq<SuggM>) -> Seq<char>
    decreases items.len(),
{
    if items.len() == 0 {
        Seq::<char>::empty()
    } else {
        render_seq(items.drop_last()) + render_one(items.last())
    }
}

/// One line of the suggestion listing, as `render_one` describes.
pub fn render_line(s: &Suggestion) -> (r: String)
    ensures
        r@ == render_one(s@),
{
    match s {
        Suggestion::Steam(_, app) => {
            let mut r = String::from_str("Steam: ");
            r.append(app.name.as_str());
            r.append(" - ");
            let u = app.url();
            r.append(u.as_str());
            r.append("\r\n");
            r
        },
        Suggestion::PlainText(_, text) => {
            let mut r = String::from_str("Title: ");
            r.append(text.title.as_str());
            match &text.genre {
                Some(g) => {
                    r.append(" Genre: ");
                    r.append(g.as_str());
                },
                None => {},
            }
            match &text.url {
                Some(u) => {
                    r.append("Url: ");
                    r.append(u.as_str());
                },
                None => {},
            }
            r.append("\r\n");
            r
        },
    }
}

/// The suggestion store: per-guild lists of suggestions, guild keys
/// unique, and within each guild no two entries with the same normalized
/// title.
pub struct GameSuggestions {
    pub slots: Vec<GuildSlot<Suggestion>>,
}

impl GameSuggestions {
    /// The store as a list of (guild, entries) pairs.
    pub open spec fn model(&self) -> Seq<(u64, Seq<SuggM>)> {
        self.slots@.map_values(|sl: GuildSlot<Suggestion>| sl.model())
    }

    /// The entries of guild `g`; empty where the guild has none.
    pub open spec fn at(&self, g: u64) -> Seq<SuggM> {
        seq_at(self.model(), g)
    }

    /// Well-formed: guild keys unique, normalized titles unique per guild.
    pub open spec fn wf(&self) -> bool {
        &&& unique_guilds(self.model())
        &&& forall|g: u64| norm_unique(#[trigger] self.at(g))
    }

    /// An empty store.
    pub fn new() -> (r: Self)
        ensures
            r.wf(),
            forall|g: u64| r.at(g) == Seq::<SuggM>::empty(),
    {
        let r = GameSuggestions { slots: Vec::new() };
        proof {
            assert(r.model() =~= Seq::<(u64, Seq<SuggM>)>::empty());
            assert forall|g: u64| r.at(g) == Seq::<SuggM>::empty() by {
                lemma_seq_at_absent(r.model(), g);
            }
        }
        r
    }

    /// The index of guild `g`'s slot.
    #[verifier::loop_isolation(false)]
    fn find_slot(&self, g: u64) -> (r: Option<usize>)
        ensures
            match r {
                Some(i) => i < self.slots@.len() && self.model()[i as int].0 == g,
                None => forall|i: int| 0 <= i < self.model().len() ==> self.model()[i].0 != g,
            },
    {
        let n = self.slots.len();
        let mut i: usize = 0;
        while i < n
            invariant
                n == self.slots@.len(),
                0 <= i <= n,
                forall|j: int| 0 <= j < i ==> self.model()[j].0 != g,
            decreases n - i,
        {
            if self.slots[i].guild == g {
                return Some(i);
            }
            i = i + 1;
        }
        None
    }

    /// Adds `candidate` to guild `guild`: appends it when no existing
    /// entry case-insensitively (trimmed) matches its title, and fails
    /// with `DuplicateTitle`, changing nothing, when one does. The check
    /// and the append are one unit on `&mut self`.
    #[verifier::loop_isolation(false)]
    pub fn add(&mut self, guild: u64, candidate: Suggestion) -> (r: Result<(), SuggestError>)
        requires
            old(self).wf(),
        ensures
            final(self).wf(),
            final(self).at(guild) == add_result(old(self).at(guild), candidate@),
            forall|g2: u64| g2 != guild ==> final(self).at(g2) == old(self).at(g2),
            r is Ok <==> add_ok(old(self).at(guild), candidate@),
            r is Err ==> r == Result::<(), SuggestError>::Err(SuggestError::DuplicateTitle),
    {
        match self.find_slot(guild) {
            None => {
                proof {
                    lemma_seq_at_absent(self.model(), guild);
                }
                let ghost pre = self.model();
                let mut items: Vec<Suggestion> = Vec::new();
                let ghost cm = candidate@;
                items.push(candidate);
                let slot = GuildSlot { guild, items };
                self.slots.push(slot);
                proof {
                    assert(self.model() =~~= pre.push((guild, seq![cm])));
                    lemma_seq_at_push(pre, guild, seq![cm]);
                    assert forall|g2: u64| norm_unique(#[trigger] self.at(g2)) by {
                        if g2 != guild {
                            assert(self.at(g2) == old(self).at(g2));
                        }
                    }
                }
                Ok(())
            },
            Some(si) => {
                proof {
                    lemma_seq_at_found(self.model(), si as int);
                }
                let ghost items0 = self.at(guild);
                let k = normalized(candidate.title());
                let n = self.slots[si].items.len();
                let mut i: usize = 0;
                while i < n
                    invariant
                        si < self.slots@.len(),
                        n == self.slots@[si as int].items@.len(),
                        items0 == self.model()[si as int].1,
                        0 <= i <= n,
                        k@ == candidate@.key(),
                        forall|j: int| 0 <= j < i ==> items0[j].key() != candidate@.key(),
                    decreases n - i,
                {
                    let t = normalized(self.slots[si].items[i].title());
                    if t == k {
                        proof {
                            assert(items0[i as int].key() == candidate@.key());
                        }
                        return Err(SuggestError::DuplicateTitle);
                    }
                    i = i + 1;
                }
                let ghost pre = self.model();
                let ghost cm = candidate@;
                let sl = &mut self.slots[si];
                sl.items.push(candidate);
                proof {
                    assert(self.model() =~~= pre.update(si as int, (guild, items0.push(cm))));
                    lemma_seq_at_update(pre, si as int, items0.push(cm));
                    assert forall|g2: u64| norm_unique(#[trigger] self.at(g2)) by {
                        if g2 == guild {
                            assert(self.at(guild) == items0.push(cm));
                            assert(norm_unique(items0));
                            assert forall|a: int, b: int|
                                0 <= a < b < items0.push(cm).len() implies items0.push(cm)[a].key()
                                != items0.push(cm)[b].key() by {
                                if b == items0.len() {
                                    assert(items0.push(cm)[a] == items0[a]);
                                    assert(items0.push(cm)[b] == cm);
                                }
                            }
                        } else {
                            assert(self.at(g2) == old(self).at(g2));
                        }
                    }
                }
                Ok(())
            },
        }
    }

    /// Removes the suggestion whose title case-insensitively (trimmed)
    /// matches `title` from guild `guild` and returns it. Fails with
    /// `NotFound` when no entry matches and with `NotOwner` when the match
    /// belongs to a caller other than `requester`; either failure changes
    /// nothing. Removal swaps the last entry into the gap, so the tail may
    /// be reordered. The check and the removal are one unit on `&mut self`.
    #[verifier::loop_isolation(false)]
    pub fn remove(&mut self, guild: u64, requester: u64, title: &str) -> (r: Result<
        Suggestion,
        SuggestError,
    >)
        requires
            old(self).wf(),
        ensures
            final(self).wf(),
            final(self).at(guild) == remove_result(old(self).at(guild), requester, norm(title@)),
            forall|g2: u64| g2 != guild ==> final(self).at(g2) == old(self).at(g2),
            ({
                let items = old(self).at(guild);
                let f = find_key(items, norm(title@));
                match r {
                    Ok(s) => f < items.len() && items[f].owner() == requester && s@ == items[f],
                    Err(e) => match e {
                        SuggestError::NotFound => !has_key(items, norm(title@)),
                        SuggestError::NotOwner => f < items.len() && items[f].owner()
                            != requester,
                        SuggestError::DuplicateTitle => false,
                    },
                }
            }),
    {
        let ghost k_spec = norm(title@);
        proof {
            lemma_find_key(old(self).at(guild), k_spec);
        }
        let k = normalized(title);
        match self.find_slot(guild) {
            None => {
                proof {
                    lemma_seq_at_absent(self.model(), guild);
                }
                Err(SuggestError::NotFound)
            },
            Some(si) => {
                proof {
                    lemma_seq_at_found(self.model(), si as int);
                }
                let ghost items0 = self.at(guild);
                let n = self.slots[si].items.len();
                let mut i: usize = 0;
                while i < n
                    invariant
                        *self == *old(self),
                        si < self.slots@.len(),
                        n == self.slots@[si as int].items@.len(),
                        items0 == self.model()[si as int].1,
                        0 <= i <= n,
                        k@ == k_spec,
                        forall|j: int| 0 <= j < i ==> items0[j].key() != k_spec,
                    decreases n - i,
                {
                    let t = normalized(self.slots[si].items[i].title());
                    if t == k {
                        proof {
                            lemma_find_key(items0, k_spec);
                            assert(items0[i as int] == self.slots@[si as int].items@[i as int]@);
                            assert(items0[i as int].key() == k_spec);
                            let f = find_key(items0, k_spec);
                            assert(has_key(items0, k_spec)) by {
                                assert(0 <= i < items0.len() && items0[i as int].key() == k_spec);
                            }
                            if f < i as int {
                                assert(items0[f].key() != k_spec);
                            }
                            if f > i as int {
                                assert(items0[i as int].key() != k_spec);
                            }
                            assert(f == i as int);
                        }
                        if self.slots[si].items[i].user() != requester {
                            return Err(SuggestError::NotOwner);
                        }
                        let ghost pre = self.model();
                        let sl = &mut self.slots[si];
                        let removed = sl.items.swap_remove(i);
                        proof {
                            let items1 = swap_removed(items0, i as int);
                            assert(self.slots@[si as int].items@.map_values(|t: Suggestion| t@)
                                =~= items1);
                            assert(self.model() =~~= pre.update(si as int, (guild, items1)));
                            lemma_seq_at_update(pre, si as int, items1);
                            lemma_norm_unique_swap_removed(items0, i as int);
                            assert forall|g2: u64| norm_unique(#[trigger] self.at(g2)) by {
                                if g2 != guild {
                                    assert(self.at(g2) == old(self).at(g2));
                                }
                            }
                        }
                        return Ok(removed);
                    }
                    i = i + 1;
                }
                proof {
                    lemma_find_key(items0, k_spec);
                }
                Err(SuggestError::NotFound)
            },
        }
    }

    /// The suggestions of guild `guild`, as copies, in store order; empty
    /// where the guild has none.
    #[verifier::loop_isolation(false)]
    pub fn list(&self, guild: u64) -> (r: Vec<Suggestion>)
        requires
            self.wf(),
        ensures
            r@.map_values(|t: Suggestion| t@) == self.at(guild),
    {
        match self.find_slot(guild) {
            None => {
                proof {
                    lemma_seq_at_absent(self.model(), guild);
                }
                let r = Vec::new();
                proof {
                    assert(r@.map_values(|t: Suggestion| t@) =~= self.at(guild));
                }
                r
            },
            Some(si) => {
                proof {
                    lemma_seq_at_found(self.model(), si as int);
                }
                let n = self.slots[si].items.len();
                let mut r: Vec<Suggestion> = Vec::new();
                let mut i: usize = 0;
                while i < n
                    invariant
                        si < self.slots@.len(),
                        n == self.slots@[si as int].items@.len(),
                        self.at(guild) == self.model()[si as int].1,
                        0 <= i <= n,
                        r@.map_values(|t: Suggestion| t@) =~= self.at(guild).subrange(0, i as int),
                    decreases n - i,
                {
                    r.push(self.slots[si].items[i].duplicate());
                    proof {
                        assert(r@.map_values(|t: Suggestion| t@) =~= self.at(guild).subrange(
                            0,
                            i + 1,
                        ));
                    }
                    i = i + 1;
                }
                proof {
                    assert(self.at(guild).subrange(0, n as int) =~= self.at(guild));
                }
                r
            },
        }
    }

    /// The listing of guild `guild`: one line per suggestion, in store
    /// order; empty where the guild has none.
    #[verifier::loop_isolation(false)]
    pub fn render(&self, guild: u64) -> (r: String)
        requires
            self.wf(),
        ensures
            r@ == render_seq(self.at(guild)),
    {
        let items = self.list(guild);
        let mut r = String::new();
        let mut i: usize = 0;
        let ghost m = self.at(guild);
        while i < items.len()
            invariant
                items@.map_values(|t: Suggestion| t@) == m,
                0 <= i <= items@.len(),
                r@ == render_seq(m.subrange(0, i as int)),
            decreases items@.len() - i,
        {
            let line = render_line(&items[i]);
            r.append(line.as_str());
            proof {
                let p = m.subrange(0, i + 1);
                assert(p.drop_last() =~= m.subrange(0, i as int));
                assert(p.last() == m[i as int]);
            }
            i = i + 1;
        }
        proof {
            assert(m.subrange(0, m.len() as int) =~= m);
        }
        r
    }
}

/// Adding a suggestion whose normalized title matches an existing entry
/// fails and leaves the guild's list unchanged.
pub proof fn lemma_add_duplicate_rejected(items: Seq<SuggM>, c: SuggM)
    requires
        has_key(items, c.key()),
    ensures
        !add_ok(items, c),
        add_result(items, c) == items,
{
}

/// Serialized adds with distinct normalized titles never lose an entry:
/// when both succeed, both entries stand in the final list, and the first
/// add never disturbs the second one's duplicate check.
pub proof fn lemma_adds_distinct_titles(items: Seq<SuggM>, a: SuggM, b: SuggM)
    requires
        a.key() != b.key(),
    ensures
        add_ok(add_result(items, a), b) == add_ok(items, b),
        add_ok(items, a) && add_ok(items, b) ==> {
            let after = add_result(add_result(items, a), b);
            after == items.push(a).push(b) && has_key(after, a.key()) && has_key(after, b.key())
        },
{
    let mid = add_result(items, a);
    if add_ok(items, a) {
        assert(forall|i: int| 0 <= i < items.len() ==> mid[i] == items[i]);
        assert(mid[items.len() as int] == a);
        if has_key(mid, b.key()) {
            let w = choose|i: int| 0 <= i < mid.len() && mid[i].key() == b.key();
            assert(w < items.len() && items[w].key() == b.key());
        }
        if has_key(items, b.key()) {
            let w = choose|i: int| 0 <= i < items.len() && items[i].key() == b.key();
            assert(mid[w].key() == b.key());
        }
        if add_ok(items, b) {
            let after = add_result(mid, b);
            assert(after[items.len() as int] == a);
            assert(after[items.len() as int + 1] == b);
        }
    }
}

/// Serialized adds with the same normalized title never both succeed; on a
/// fresh title exactly the first one succeeds.
pub proof fn lemma_adds_same_title(items: Seq<SuggM>, a: SuggM, b: SuggM)
    requires
        a.key() == b.key(),
    ensures
        !(add_ok(items, a) && add_ok(add_result(items, a), b)),
        add_ok(items, a) ==> !add_ok(add_result(items, a), b),
{
    if add_ok(items, a) {
        let mid = add_result(items, a);
        assert(mid[items.len() as int] == a);
        assert(has_key(mid, b.key()));
    }
}

/// A removal changes the guild's list only when the matching entry's owner
/// is the requester; a non-owner's attempt and a miss leave it unchanged.
pub proof fn lemma_remove_owner_gate(items: Seq<SuggM>, requester: u64, k: Seq<char>)
    ensures
        ({
            let f = find_key(items, k);
            &&& (f < items.len() && items[f].owner() != requester ==> remove_result(
                items,
                requester,
                k,
            ) == items)
            &&& (f == items.len() ==> remove_result(items, requester, k) == items)
            &&& (remove_result(items, requester, k) != items ==> f < items.len()
                && items[f].owner() == requester)
        }),
{
    lemma_find_key(items, k);
    let f = find_key(items, k);
    if f < items.len() && items[f].owner() == requester {
        assert(swap_removed(items, f).len() < items.len());
    }
}

} // verus!
