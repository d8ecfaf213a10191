//! The snapshot codec: serializes the two stores to self-describing text
//! blobs (field names preserved) and parses them back. Strings are
//! length-prefixed, so every character of a title round-trips; a blob that
//! does not parse back into a well-formed store is a corrupt snapshot.

use vstd::prelude::*;
use crate::catalog::AppM;
use crate::errors::SnapshotError;
use crate::players::{Player, PlayerM, PlayerContainer, owners_unique};
use crate::store::{GuildSlot, unique_guilds};
use crate::suggest::{GameSuggestions, SuggM, Suggestion, TextM, norm_unique};
use crate::text::{dec_rep, dec_val, is_digit, lemma_dec_rep_val, push_char, same_title,
    write_dec};

verus! {

/// A length-prefixed string: its length in decimal, a colon, its
/// characters.
pub open spec fn enc_str(t: Seq<char>) -> Seq<char> {
    dec_rep(t.len()) + ":"@ + t
}

/// An optional string: `-` for none, `+` and the string for some.
pub open spec fn enc_opt(o: Option<Seq<char>>) -> Seq<char> {
    match o {
        None => "-"@,
        Some(t) => "+"@ + enc_str(t),
    }
}

/// One suggestion record, tagged with its variant and field names.
pub open spec fn enc_sugg(s: SuggM) -> Seq<char> {
    match s {
        SuggM::Steam { owner, app } => "steam{owner:"@ + dec_rep(owner as nat) + ",app:"@
            + dec_rep(app.id as nat) + ",name:"@ + enc_str(app.name) + "}"@,
        SuggM::PlainText { owner, text } => "plain{owner:"@ + dec_rep(owner as nat) + ",title:"@
            + enc_str(text.title) + ",genre:"@ + enc_opt(text.genre) + ",url:"@ + enc_opt(
            text.url,
        ) + "}"@,
    }
}

/// The records of one sequence, concatenated.
pub open spec fn enc_suggs(items: Seq<SuggM>) -> Seq<char>
    decreases items.len(),
{
    if items.len() == 0 {
        Seq::<char>::empty()
    } else {
        enc_suggs(items.drop_last()) + enc_sugg(items.last())
    }
}

/// One guild's slot: its key and its records, count-prefixed.
pub open spec fn enc_sugg_slot(slot: (u64, Seq<SuggM>)) -> Seq<char> {
    "guild:"@ + dec_rep(slot.0 as nat) + ":"@ + dec_rep(slot.1.len()) + "["@ + enc_suggs(slot.1)
        + "]"@
}

/// The slots, concatenated.
pub open spec fn enc_sugg_slots(slots: Seq<(u64, Seq<SuggM>)>) -> Seq<char>
    decreases slots.len(),
{
    if slots.len() == 0 {
        Seq::<char>::empty()
    } else {
        enc_sugg_slots(slots.drop_last()) + enc_sugg_slot(slots.last())
    }
}

/// The whole suggestion store as one blob.
pub open spec fn enc_sugg_store(slots: Seq<(u64, Seq<SuggM>)>) -> Seq<char> {
    "suggestions:"@ + dec_rep(slots.len()) + "["@ + enc_sugg_slots(slots) + "]"@
}

/// One player mapping record.
pub open spec fn enc_player(p: PlayerM) -> Seq<char> {
    "steam{owner:"@ + dec_rep(p.owner as nat) + ",id:"@ + dec_rep(p.external as nat) + "}"@
}

/// The mappings of one sequence, concatenated.
pub open spec fn enc_players(items: Seq<PlayerM>) -> Seq<char>
    decreases items.len(),
{
    if items.len() == 0 {
        Seq::<char>::empty()
    } else {
        enc_players(items.drop_last()) + enc_player(items.last())
    }
}

/// One guild's slot of mappings.
pub open spec fn enc_player_slot(slot: (u64, Seq<PlayerM>)) -> Seq<char> {
    "guild:"@ + dec_rep(slot.0 as nat) + ":"@ + dec_rep(slot.1.len()) + "["@ + enc_players(
        slot.1,
    ) + "]"@
}

/// The slots, concatenated.
pub open spec fn enc_player_slots(slots: Seq<(u64, Seq<PlayerM>)>) -> Seq<char>
    decreases slots.len(),
{
    if slots.len() == 0 {
        Seq::<char>::empty()
    } else {
        enc_player_slots(slots.drop_last()) + enc_player_slot(slots.last())
    }
}

/// The whole player-mapping store as one blob.
pub open spec fn enc_player_store(slots: Seq<(u64, Seq<PlayerM>)>) -> Seq<char> {
    "players:"@ + dec_rep(slots.len()) + "["@ + enc_player_slots(slots) + "]"@
}

/// Appends a length-prefixed string.
fn write_str(t: &str, out: &mut String)
    ensures
        final(out)@ == old(out)@ + enc_str(t@),
{
    let n = t.unicode_len();
    write_dec(n as u64, out);
    out.append(":");
    out.append(t);
    proof {
        assert(old(out)@ + enc_str(t@) =~= ((old(out)@ + dec_rep(t@.len())) + ":"@) + t@);
    }
}

/// Appends an optional string.
fn write_opt(o: &Option<String>, out: &mut String)
    ensures
        final(out)@ == old(out)@ + enc_opt(
            match o {
                Some(t) => Some(t@),
                None => None,
            },
        ),
{
    match o {
        None => {
            out.append("-");
        },
        Some(t) => {
            out.append("+");
            write_str(t.as_str(), out);
            proof {
                assert(old(out)@ + ("+"@ + enc_str(t@)) =~= (old(out)@ + "+"@) + enc_str(t@));
            }
        },
    }
}

/// Appends one suggestion record.
fn write_sugg(s: &Suggestion, out: &mut String)
    ensures
        final(out)@ == old(out)@ + enc_sugg(s@),
{
    match s {
        Suggestion::Steam(owner, app) => {
            out.append("steam{owner:");
            write_dec(*owner, out);
            out.append(",app:");
            write_dec(app.id as u64, out);
            out.append(",name:");
            write_str(app.name.as_str(), out);
            out.append("}");
            proof {
                assert(final(out)@ =~= old(out)@ + enc_sugg(s@));
            }
        },
        Suggestion::PlainText(owner, text) => {
            out.append("plain{owner:");
            write_dec(*owner, out);
            out.append(",title:");
            write_str(text.title.as_str(), out);
            out.append(",genre:");
            write_opt(&text.genre, out);
            out.append(",url:");
            write_opt(&text.url, out);
            out.append("}");
            proof {
                assert(final(out)@ =~= old(out)@ + enc_sugg(s@));
            }
        },
    }
}

/// Appends one guild's suggestion slot.
#[verifier::loop_isolation(false)]
fn write_sugg_slot(slot: &GuildSlot<Suggestion>, out: &mut String)
    ensures
        final(out)@ == old(out)@ + enc_sugg_slot(slot.model()),
{
    let ghost m = slot.model();
    out.append("guild:");
    write_dec(slot.guild, out);
    out.append(":");
    write_dec(slot.items.len() as u64, out);
    out.append("[");
    let ghost head = out@;
    let n = slot.items.len();
    let mut i: usize = 0;
    while i < n
        invariant
            0 <= i <= n,
            out@ == head + enc_suggs(m.1.subrange(0, i as int)),
        decreases n - i,
    {
        write_sugg(&slot.items[i], out);
        proof {
            let p = m.1.subrange(0, i + 1);
            assert(p.drop_last() =~= m.1.subrange(0, i as int));
            assert(p.last() == m.1[i as int]);
            assert(head + enc_suggs(p) =~= (head + enc_suggs(m.1.subrange(0, i as int)))
                + enc_sugg(m.1[i as int]));
        }
        i = i + 1;
    }
    out.append("]");
    proof {
        assert(m.1.subrange(0, n as int) =~= m.1);
        assert(final(out)@ =~= old(out)@ + enc_sugg_slot(m));
    }
}

/// The suggestion store serialized to its snapshot blob.
#[verifier::loop_isolation(false)]
pub fn save_suggestions(store: &GameSuggestions) -> (r: String)
    ensures
        r@ == enc_sugg_store(store.model()),
{
    let ghost m = store.model();
    let mut out = String::from_str("suggestions:");
    write_dec(store.slots.len() as u64, &mut out);
    out.append("[");
    let ghost head = out@;
    let n = store.slots.len();
    let mut i: usize = 0;
    while i < n
        invariant
            0 <= i <= n,
            out@ == head + enc_sugg_slots(m.subrange(0, i as int)),
        decreases n - i,
    {
        write_sugg_slot(&store.slots[i], &mut out);
        proof {
            let p = m.subrange(0, i + 1);
            assert(p.drop_last() =~= m.subrange(0, i as int));
            assert(p.last() == m[i as int]);
            assert(head + enc_sugg_slots(p) =~= (head + enc_sugg_slots(m.subrange(0, i as int)))
                + enc_sugg_slot(m[i as int]));
        }
        i = i + 1;
    }
    out.append("]");
    proof {
        assert(m.subrange(0, n as int) =~= m);
        assert(out@ =~= enc_sugg_store(m));
    }
    out
}

/// Appends one player mapping record.
fn write_player(p: &Player, out: &mut String)
    ensures
        final(out)@ == old(out)@ + enc_player(p@),
{
    out.append("steam{owner:");
    write_dec(p.discord(), out);
    out.append(",id:");
    write_dec(p.steam(), out);
    out.append("}");
    proof {
        assert(final(out)@ =~= old(out)@ + enc_player(p@));
    }
}

/// Appends one guild's mapping slot.
#[verifier::loop_isolation(false)]
fn write_player_slot(slot: &GuildSlot<Player>, out: &mut String)
    ensures
        final(out)@ == old(out)@ + enc_player_slot(slot.model()),
{
    let ghost m = slot.model();
    out.append("guild:");
    write_dec(slot.guild, out);
    out.append(":");
    write_dec(slot.items.len() as u64, out);
    out.append("[");
    let ghost head = out@;
    let n = slot.items.len();
    let mut i: usize = 0;
    while i < n
        invariant
            0 <= i <= n,
            out@ == head + enc_players(m.1.subrange(0, i as int)),
        decreases n - i,
    {
        write_player(&slot.items[i], out);
        proof {
            let p = m.1.subrange(0, i + 1);
            assert(p.drop_last() =~= m.1.subrange(0, i as int));
            assert(p.last() == m.1[i as int]);
            assert(head + enc_players(p) =~= (head + enc_players(m.1.subrange(0, i as int)))
                + enc_player(m.1[i as int]));
        }
        i = i + 1;
    }
    out.append("]");
    proof {
        assert(m.1.subrange(0, n as int) =~= m.1);
        assert(final(out)@ =~= old(out)@ + enc_player_slot(m));
    }
}

/// The player-mapping store serialized to its snapshot blob.
#[verifier::loop_isolation(false)]
pub fn save_players(store: &PlayerContainer) -> (r: String)
    ensures
        r@ == enc_player_store(store.model()),
{
    let ghost m = store.model();
    let mut out = String::from_str("players:");
    write_dec(store.slots.len() as u64, &mut out);
    out.append("[");
    let ghost head = out@;
    let n = store.slots.len();
    let mut i: usize = 0;
    while i < n
        invariant
            0 <= i <= n,
            out@ == head + enc_player_slots(m.subrange(0, i as int)),
        decreases n - i,
    {
        write_player_slot(&store.slots[i], &mut out);
        proof {
            let p = m.subrange(0, i + 1);
            assert(p.drop_last() =~= m.subrange(0, i as int));
            assert(p.last() == m[i as int]);
            assert(head + enc_player_slots(p) =~= (head + enc_player_slots(
                m.subrange(0, i as int),
            )) + enc_player_slot(m[i as int]));
        }
        i = i + 1;
    }
    out.append("]");
    proof {
        assert(m.subrange(0, n as int) =~= m);
        assert(out@ =~= enc_player_store(m));
    }
    out
}

} // verus!

verus! {

/// A literal at position `i`: the position after it where it stands
/// there.
pub open spec fn d_lit(s: Seq<char>, i: int, lit: Seq<char>) -> Option<int> {
    if 0 <= i && i + lit.len() <= s.len() && s.subrange(i, i + lit.len()) == lit {
        Some(i + lit.len())
    } else {
        None
    }
}

/// The end of the run of decimal digits starting at `i`.
pub open spec fn digit_end(s: Seq<char>, i: int) -> int
    decreases s.len() - i,
{
    if 0 <= i && i < s.len() && is_digit(s[i]) {
        digit_end(s, i + 1)
    } else {
        i
    }
}

/// A decimal number at position `i`: greedy, at least one digit, value
/// within `u64`.
pub open spec fn d_dec(s: Seq<char>, i: int) -> Option<(u64, int)> {
    if 0 <= i <= s.len() {
        let j = digit_end(s, i);
        if j == i {
            None
        } else if dec_val(s.subrange(i, j)) > u64::MAX {
            None
        } else {
            Some((dec_val(s.subrange(i, j)) as u64, j))
        }
    } else {
        None
    }
}

/// A length-prefixed string at position `i`.
pub open spec fn d_str(s: Seq<char>, i: int) -> Option<(Seq<char>, int)> {
    match d_dec(s, i) {
        None => None,
        Some((n, j)) => match d_lit(s, j, ":"@) {
            None => None,
            Some(j2) => if j2 + n <= s.len() {
                Some((s.subrange(j2, j2 + n as int), j2 + n as int))
            } else {
                None
            },
        },
    }
}

/// An optional string at position `i`.
pub open spec fn d_opt(s: Seq<char>, i: int) -> Option<(Option<Seq<char>>, int)> {
    if d_lit(s, i, "-"@) is Some {
        Some((None, i + 1))
    } else if d_lit(s, i, "+"@) is Some {
        match d_str(s, i + 1) {
            None => None,
            Some((t, j)) => Some((Some(t), j)),
        }
    } else {
        None
    }
}

/// One suggestion record at position `i`.
pub open spec fn d_sugg(s: Seq<char>, i: int) -> Option<(SuggM, int)> {
    if d_lit(s, i, "steam{owner:"@) is Some {
        let j0 = i + "steam{owner:"@.len();
        match d_dec(s, j0) {
            None => None,
            Some((owner, j1)) => match d_lit(s, j1, ",app:"@) {
                None => None,
                Some(j2) => match d_dec(s, j2) {
                    None => None,
                    Some((id, j3)) => if id > u32::MAX {
                        None
                    } else {
                        match d_lit(s, j3, ",name:"@) {
                            None => None,
                            Some(j4) => match d_str(s, j4) {
                                None => None,
                                Some((name, j5)) => match d_lit(s, j5, "}"@) {
                                    None => None,
                                    Some(j6) => Some(
                                        (
                                            SuggM::Steam {
                                                owner,
                                                app: AppM { id: id as u32, name },
                                            },
                                            j6,
                                        ),
                                    ),
                                },
                            },
                        }
                    },
                },
            },
        }
    } else if d_lit(s, i, "plain{owner:"@) is Some {
        let j0 = i + "plain{owner:"@.len();
        match d_dec(s, j0) {
            None => None,
            Some((owner, j1)) => match d_lit(s, j1, ",title:"@) {
                None => None,
                Some(j2) => match d_str(s, j2) {
                    None => None,
                    Some((title, j3)) => match d_lit(s, j3, ",genre:"@) {
                        None => None,
                        Some(j4) => match d_opt(s, j4) {
                            None => None,
                            Some((genre, j5)) => match d_lit(s, j5, ",url:"@) {
                                None => None,
                                Some(j6) => match d_opt(s, j6) {
                                    None => None,
                                    Some((url, j7)) => match d_lit(s, j7, "}"@) {
                                        None => None,
                                        Some(j8) => Some(
                                            (
                                                SuggM::PlainText {
                                                    owner,
                                                    text: TextM { title, genre, url },
                                                },
                                                j8,
                                            ),
                                        ),
                                    },
                                },
                            },
                        },
                    },
                },
            },
        }
    } else {
        None
    }
}

/// Exactly `n` suggestion records in a row from position `i`.
pub open spec fn d_suggs(s: Seq<char>, i: int, n: nat) -> Option<(Seq<SuggM>, int)>
    decreases n,
{
    if n == 0 {
        Some((Seq::<SuggM>::empty(), i))
    } else {
        match d_sugg(s, i) {
            None => None,
            Some((v, j)) => match d_suggs(s, j, (n - 1) as nat) {
                None => None,
                Some((rest, j2)) => Some((seq![v] + rest, j2)),
            },
        }
    }
}

/// One guild's suggestion slot at position `i`.
pub open spec fn d_sugg_slot(s: Seq<char>, i: int) -> Option<((u64, Seq<SuggM>), int)> {
    match d_lit(s, i, "guild:"@) {
        None => None,
        Some(j0) => match d_dec(s, j0) {
            None => None,
            Some((g, j1)) => match d_lit(s, j1, ":"@) {
                None => None,
                Some(j2) => match d_dec(s, j2) {
                    None => None,
                    Some((n, j3)) => match d_lit(s, j3, "["@) {
                        None => None,
                        Some(j4) => match d_suggs(s, j4, n as nat) {
                            None => None,
                            Some((items, j5)) => match d_lit(s, j5, "]"@) {
                                None => None,
                                Some(j6) => Some(((g, items), j6)),
                            },
                        },
                    },
                },
            },
        },
    }
}

/// Exactly `n` suggestion slots in a row from position `i`.
pub open spec fn d_sugg_slots(s: Seq<char>, i: int, n: nat) -> Option<
    (Seq<(u64, Seq<SuggM>)>, int),
>
    decreases n,
{
    if n == 0 {
        Some((Seq::<(u64, Seq<SuggM>)>::empty(), i))
    } else {
        match d_sugg_slot(s, i) {
            None => None,
            Some((v, j)) => match d_sugg_slots(s, j, (n - 1) as nat) {
                None => None,
                Some((rest, j2)) => Some((seq![v] + rest, j2)),
            },
        }
    }
}

/// A whole suggestion-store blob; the blob must end exactly where the
/// store ends.
pub open spec fn d_sugg_store(s: Seq<char>) -> Option<Seq<(u64, Seq<SuggM>)>> {
    match d_lit(s, 0, "suggestions:"@) {
        None => None,
        Some(i0) => match d_dec(s, i0) {
            None => None,
            Some((n, i1)) => match d_lit(s, i1, "["@) {
                None => None,
                Some(i2) => match d_sugg_slots(s, i2, n as nat) {
                    None => None,
                    Some((slots, i3)) => match d_lit(s, i3, "]"@) {
                        None => None,
                        Some(i4) => if i4 == s.len() {
                            Some(slots)
                        } else {
                            None
                        },
                    },
                },
            },
        },
    }
}

/// One player mapping record at position `i`.
pub open spec fn d_player(s: Seq<char>, i: int) -> Option<(PlayerM, int)> {
    match d_lit(s, i, "steam{owner:"@) {
        None => None,
        Some(j0) => match d_dec(s, j0) {
            None => None,
            Some((owner, j1)) => match d_lit(s, j1, ",id:"@) {
                None => None,
                Some(j2) => match d_dec(s, j2) {
                    None => None,
                    Some((external, j3)) => match d_lit(s, j3, "}"@) {
                        None => None,
                        Some(j4) => Some((PlayerM { owner, external }, j4)),
                    },
                },
            },
        },
    }
}

/// Exactly `n` player records in a row from position `i`.
pub open spec fn d_players(s: Seq<char>, i: int, n: nat) -> Option<(Seq<PlayerM>, int)>
    decreases n,
{
    if n == 0 {
        Some((Seq::<PlayerM>::empty(), i))
    } else {
        match d_player(s, i) {
            None => None,
            Some((v, j)) => match d_players(s, j, (n - 1) as nat) {
                None => None,
                Some((rest, j2)) => Some((seq![v] + rest, j2)),
            },
        }
    }
}

/// One guild's player slot at position `i`.
pub open spec fn d_player_slot(s: Seq<char>, i: int) -> Option<((u64, Seq<PlayerM>), int)> {
    match d_lit(s, i, "guild:"@) {
        None => None,
        Some(j0) => match d_dec(s, j0) {
            None => None,
            Some((g, j1)) => match d_lit(s, j1, ":"@) {
                None => None,
                Some(j2) => match d_dec(s, j2) {
                    None => None,
                    Some((n, j3)) => match d_lit(s, j3, "["@) {
                        None => None,
                        Some(j4) => match d_players(s, j4, n as nat) {
                            None => None,
                            Some((items, j5)) => match d_lit(s, j5, "]"@) {
                                None => None,
                                Some(j6) => Some(((g, items), j6)),
                            },
                        },
                    },
                },
            },
        },
    }
}

/// Exactly `n` player slots in a row from position `i`.
pub open spec fn d_player_slots(s: Seq<char>, i: int, n: nat) -> Option<
    (Seq<(u64, Seq<PlayerM>)>, int),
>
    decreases n,
{
    if n == 0 {
        Some((Seq::<(u64, Seq<PlayerM>)>::empty(), i))
    } else {
        match d_player_slot(s, i) {
            None => None,
            Some((v, j)) => match d_player_slots(s, j, (n - 1) as nat) {
                None => None,
                Some((rest, j2)) => Some((seq![v] + rest, j2)),
            },
        }
    }
}

/// A whole player-store blob; the blob must end exactly where the store
/// ends.
pub open spec fn d_player_store(s: Seq<char>) -> Option<Seq<(u64, Seq<PlayerM>)>> {
    match d_lit(s, 0, "players:"@) {
        None => None,
        Some(i0) => match d_dec(s, i0) {
            None => None,
            Some((n, i1)) => match d_lit(s, i1, "["@) {
                None => None,
                Some(i2) => match d_player_slots(s, i2, n as nat) {
                    None => None,
                    Some((slots, i3)) => match d_lit(s, i3, "]"@) {
                        None => None,
                        Some(i4) => if i4 == s.len() {
                            Some(slots)
                        } else {
                            None
                        },
                    },
                },
            },
        },
    }
}

} // verus!

verus! {

/// Whether a string is short enough to length-prefix.
pub open spec fn bounded_opt(o: Option<Seq<char>>) -> bool {
    match o {
        None => true,
        Some(t) => t.len() <= u64::MAX,
    }
}

/// Whether a suggestion's strings are short enough to length-prefix.
pub open spec fn bounded_sugg(s: SuggM) -> bool {
    match s {
        SuggM::Steam { app, .. } => app.name.len() <= u64::MAX,
        SuggM::PlainText { text, .. } => text.title.len() <= u64::MAX && bounded_opt(text.genre)
            && bounded_opt(text.url),
    }
}

/// Whether a suggestion store is small enough to count-prefix throughout.
pub open spec fn bounded_sugg_slots(m: Seq<(u64, Seq<SuggM>)>) -> bool {
    &&& m.len() <= u64::MAX
    &&& forall|i: int| 0 <= i < m.len() ==> (#[trigger] m[i]).1.len() <= u64::MAX
    &&& forall|i: int, j: int|
        0 <= i < m.len() && 0 <= j < m[i].1.len() ==> bounded_sugg(#[trigger] m[i].1[j])
}

/// Whether a player store is small enough to count-prefix throughout.
pub open spec fn bounded_player_slots(m: Seq<(u64, Seq<PlayerM>)>) -> bool {
    &&& m.len() <= u64::MAX
    &&& forall|i: int| 0 <= i < m.len() ==> (#[trigger] m[i]).1.len() <= u64::MAX
}

proof fn lemma_digit_end_at(s: Seq<char>, i: int, j: int)
    requires
        0 <= i <= j <= s.len(),
        forall|k: int| i <= k < j ==> is_digit(s[k]),
        j < s.len() ==> !is_digit(s[j]),
    ensures
        digit_end(s, i) == j,
    decreases j - i,
{
    if i < j {
        lemma_digit_end_at(s, i + 1, j);
    }
}

/// Whether `frag` stands in `s` at position `i`.
pub open spec fn at_pos(s: Seq<char>, i: int, frag: Seq<char>) -> bool {
    0 <= i && i + frag.len() <= s.len() && s.subrange(i, i + frag.len() as int) == frag
}

proof fn lemma_at_pos_split(s: Seq<char>, i: int, x: Seq<char>, y: Seq<char>)
    requires
        at_pos(s, i, x + y),
    ensures
        at_pos(s, i, x),
        at_pos(s, i + x.len() as int, y),
{
    let xy = x + y;
    assert forall|k: int| 0 <= k < x.len() implies s.subrange(i, i + x.len() as int)[k] == x[k] by {
        assert(s.subrange(i, i + xy.len() as int)[k] == xy[k]);
        assert(s[i + k] == xy[k]);
    }
    assert(s.subrange(i, i + x.len() as int) =~= x);
    assert forall|k: int|
        0 <= k < y.len() implies s.subrange(
        i + x.len() as int,
        i + x.len() + y.len() as int,
    )[k] == y[k] by {
        let kk = x.len() as int + k;
        assert(s.subrange(i, i + xy.len() as int)[kk] == xy[kk]);
        assert(s[i + kk] == xy[kk]);
    }
    assert(s.subrange(i + x.len() as int, i + x.len() + y.len() as int) =~= y);
}

proof fn lemma_d_lit_at(s: Seq<char>, i: int, lit: Seq<char>)
    requires
        at_pos(s, i, lit),
    ensures
        d_lit(s, i, lit) == Some(i + lit.len() as int),
{
}

proof fn lemma_d_dec_at(s: Seq<char>, i: int, n: nat)
    requires
        n <= u64::MAX,
        at_pos(s, i, dec_rep(n)),
        i + dec_rep(n).len() < s.len() ==> !is_digit(s[i + dec_rep(n).len() as int]),
    ensures
        d_dec(s, i) == Some((n as u64, i + dec_rep(n).len() as int)),
{
    let d = dec_rep(n);
    lemma_dec_rep_val(n);
    let j = i + d.len() as int;
    assert forall|k: int| i <= k < j implies is_digit(s[k]) by {
        assert(s.subrange(i, j)[k - i] == s[k]);
    }
    lemma_digit_end_at(s, i, j);
}

proof fn lemma_d_str_at(s: Seq<char>, i: int, t: Seq<char>)
    requires
        t.len() <= u64::MAX,
        at_pos(s, i, enc_str(t)),
    ensures
        d_str(s, i) == Some((t, i + enc_str(t).len() as int)),
{
    reveal_strlit(":");
    let d = dec_rep(t.len());
    assert(enc_str(t) == (d + ":"@) + t);
    lemma_at_pos_split(s, i, d + ":"@, t);
    lemma_at_pos_split(s, i, d, ":"@);
    let j = i + d.len() as int;
    assert(s[j] == ':') by {
        assert(s.subrange(j, j + 1)[0] == s[j]);
    }
    lemma_d_dec_at(s, i, t.len());
    lemma_d_lit_at(s, j, ":"@);
    let j2 = j + 1;
    assert(s.subrange(j2, j2 + t.len() as int) == t);
}

proof fn lemma_d_opt_at(s: Seq<char>, i: int, o: Option<Seq<char>>)
    requires
        bounded_opt(o),
        at_pos(s, i, enc_opt(o)),
    ensures
        d_opt(s, i) == Some((o, i + enc_opt(o).len() as int)),
{
    reveal_strlit("-");
    reveal_strlit("+");
    match o {
        None => {
            lemma_d_lit_at(s, i, "-"@);
        },
        Some(t) => {
            lemma_at_pos_split(s, i, "+"@, enc_str(t));
            assert(s[i] == '+') by {
                assert(s.subrange(i, i + 1)[0] == s[i]);
            }
            if d_lit(s, i, "-"@) is Some {
                assert(s.subrange(i, i + 1) == "-"@);
                assert(s.subrange(i, i + 1)[0] == '-');
                assert(false);
            }
            lemma_d_lit_at(s, i, "+"@);
            lemma_d_str_at(s, i + 1, t);
        },
    }
}

#[verifier::rlimit(100)]
#[verifier::spinoff_prover]
proof fn lemma_d_sugg_at(s: Seq<char>, i: int, v: SuggM)
    requires
        bounded_sugg(v),
        at_pos(s, i, enc_sugg(v)),
    ensures
        d_sugg(s, i) == Some((v, i + enc_sugg(v).len() as int)),
{
    reveal_strlit("steam{owner:");
    reveal_strlit("plain{owner:");
    reveal_strlit(",app:");
    reveal_strlit(",name:");
    reveal_strlit(",title:");
    reveal_strlit(",genre:");
    reveal_strlit(",url:");
    reveal_strlit("}");
    match v {
        SuggM::Steam { owner, app } => {
            let l1 = "steam{owner:"@;
            let d1 = dec_rep(owner as nat);
            let l2 = ",app:"@;
            let d2 = dec_rep(app.id as nat);
            let l3 = ",name:"@;
            let es = enc_str(app.name);
            let l4 = "}"@;
            let p1 = ((((l1 + d1) + l2) + d2) + l3) + es;
            lemma_at_pos_split(s, i, p1, l4);
            let p2 = (((l1 + d1) + l2) + d2) + l3;
            lemma_at_pos_split(s, i, p2, es);
            let p3 = ((l1 + d1) + l2) + d2;
            lemma_at_pos_split(s, i, p3, l3);
            let p4 = (l1 + d1) + l2;
            lemma_at_pos_split(s, i, p4, d2);
            lemma_at_pos_split(s, i, l1 + d1, l2);
            lemma_at_pos_split(s, i, l1, d1);
            let i1 = i + l1.len() as int;
            let i2 = i1 + d1.len() as int;
            let i3 = i2 + l2.len() as int;
            let i4 = i3 + d2.len() as int;
            let i5 = i4 + l3.len() as int;
            let i6 = i5 + es.len() as int;
            lemma_d_lit_at(s, i, l1);
            assert(s[i2] == ',') by {
                assert(s.subrange(i2, i2 + l2.len() as int)[0] == s[i2]);
            }
            lemma_d_dec_at(s, i1, owner as nat);
            lemma_d_lit_at(s, i2, l2);
            assert(s[i4] == ',') by {
                assert(s.subrange(i4, i4 + l3.len() as int)[0] == s[i4]);
            }
            lemma_d_dec_at(s, i3, app.id as nat);
            lemma_d_lit_at(s, i4, l3);
            lemma_d_str_at(s, i5, app.name);
            lemma_d_lit_at(s, i6, l4);
        },
        SuggM::PlainText { owner, text } => {
            let l1 = "plain{owner:"@;
            let d1 = dec_rep(owner as nat);
            let l2 = ",title:"@;
            let et = enc_str(text.title);
            let l3 = ",genre:"@;
            let eg = enc_opt(text.genre);
            let l4 = ",url:"@;
            let eu = enc_opt(text.url);
            let l5 = "}"@;
            let p1 = ((((((l1 + d1) + l2) + et) + l3) + eg) + l4) + eu;
            lemma_at_pos_split(s, i, p1, l5);
            let p2 = (((((l1 + d1) + l2) + et) + l3) + eg) + l4;
            lemma_at_pos_split(s, i, p2, eu);
            let p3 = ((((l1 + d1) + l2) + et) + l3) + eg;
            lemma_at_pos_split(s, i, p3, l4);
            let p4 = (((l1 + d1) + l2) + et) + l3;
            lemma_at_pos_split(s, i, p4, eg);
            let p5 = ((l1 + d1) + l2) + et;
            lemma_at_pos_split(s, i, p5, l3);
            let p6 = (l1 + d1) + l2;
            lemma_at_pos_split(s, i, p6, et);
            lemma_at_pos_split(s, i, l1 + d1, l2);
            lemma_at_pos_split(s, i, l1, d1);
            let i1 = i + l1.len() as int;
            let i2 = i1 + d1.len() as int;
            let i3 = i2 + l2.len() as int;
            let i4 = i3 + et.len() as int;
            let i5 = i4 + l3.len() as int;
            let i6 = i5 + eg.len() as int;
            let i7 = i6 + l4.len() as int;
            let i8 = i7 + eu.len() as int;
            assert(s[i] == 'p') by {
                assert(s.subrange(i, i + l1.len() as int)[0] == s[i]);
            }
            if d_lit(s, i, "steam{owner:"@) is Some {
                assert(s.subrange(i, i + 12) == "steam{owner:"@);
                assert(s.subrange(i, i + 12)[0] == 's');
                assert(false);
            }
            lemma_d_lit_at(s, i, l1);
            assert(s[i2] == ',') by {
                assert(s.subrange(i2, i2 + l2.len() as int)[0] == s[i2]);
            }
            lemma_d_dec_at(s, i1, owner as nat);
            lemma_d_lit_at(s, i2, l2);
            lemma_d_str_at(s, i3, text.title);
            lemma_d_lit_at(s, i4, l3);
            lemma_d_opt_at(s, i5, text.genre);
            lemma_d_lit_at(s, i6, l4);
            lemma_d_opt_at(s, i7, text.url);
            lemma_d_lit_at(s, i8, l5);
        },
    }
}

proof fn lemma_enc_suggs_first(items: Seq<SuggM>)
    requires
        items.len() > 0,
    ensures
        enc_suggs(items) == enc_sugg(items[0]) + enc_suggs(items.drop_first()),
    decreases items.len(),
{
    if items.len() == 1 {
        assert(items.drop_last() =~= Seq::<SuggM>::empty());
        assert(items.drop_first() =~= Seq::<SuggM>::empty());
        assert(items.last() == items[0]);
        assert(enc_suggs(items) =~= enc_sugg(items[0]) + enc_suggs(items.drop_first()));
    } else {
        let dl = items.drop_last();
        lemma_enc_suggs_first(dl);
        let df = items.drop_first();
        assert(dl[0] == items[0]);
        assert(df.drop_last() =~= dl.drop_first());
        assert(df.last() == items.last());
        assert(enc_suggs(items) =~= enc_sugg(items[0]) + enc_suggs(df));
    }
}

proof fn lemma_d_suggs_at(s: Seq<char>, i: int, items: Seq<SuggM>)
    requires
        forall|k: int| 0 <= k < items.len() ==> bounded_sugg(#[trigger] items[k]),
        at_pos(s, i, enc_suggs(items)),
    ensures
        d_suggs(s, i, items.len()) == Some((items, i + enc_suggs(items).len() as int)),
    decreases items.len(),
{
    if items.len() == 0 {
        assert(items =~= Seq::<SuggM>::empty());
    } else {
        lemma_enc_suggs_first(items);
        let df = items.drop_first();
        assert(forall|k: int| 0 <= k < df.len() ==> df[k] == items[k + 1]);
        lemma_at_pos_split(s, i, enc_sugg(items[0]), enc_suggs(df));
        lemma_d_sugg_at(s, i, items[0]);
        lemma_d_suggs_at(s, i + enc_sugg(items[0]).len() as int, df);
        assert(seq![items[0]] + df =~= items);
    }
}

#[verifier::rlimit(100)]
#[verifier::spinoff_prover]
proof fn lemma_d_sugg_slot_at(s: Seq<char>, i: int, slot: (u64, Seq<SuggM>))
    requires
        slot.1.len() <= u64::MAX,
        forall|k: int| 0 <= k < slot.1.len() ==> bounded_sugg(#[trigger] slot.1[k]),
        at_pos(s, i, enc_sugg_slot(slot)),
    ensures
        d_sugg_slot(s, i) == Some((slot, i + enc_sugg_slot(slot).len() as int)),
{
    reveal_strlit("guild:");
    reveal_strlit(":");
    reveal_strlit("[");
    reveal_strlit("]");
    let l1 = "guild:"@;
    let d1 = dec_rep(slot.0 as nat);
    let l2 = ":"@;
    let d2 = dec_rep(slot.1.len());
    let l3 = "["@;
    let ei = enc_suggs(slot.1);
    let l4 = "]"@;
    let p1 = ((((l1 + d1) + l2) + d2) + l3) + ei;
    lemma_at_pos_split(s, i, p1, l4);
    let p2 = (((l1 + d1) + l2) + d2) + l3;
    lemma_at_pos_split(s, i, p2, ei);
    let p3 = ((l1 + d1) + l2) + d2;
    lemma_at_pos_split(s, i, p3, l3);
    let p4 = (l1 + d1) + l2;
    lemma_at_pos_split(s, i, p4, d2);
    lemma_at_pos_split(s, i, l1 + d1, l2);
    lemma_at_pos_split(s, i, l1, d1);
    let i1 = i + l1.len() as int;
    let i2 = i1 + d1.len() as int;
    let i3 = i2 + l2.len() as int;
    let i4 = i3 + d2.len() as int;
    let i5 = i4 + l3.len() as int;
    let i6 = i5 + ei.len() as int;
    lemma_d_lit_at(s, i, l1);
    assert(s[i2] == ':') by {
        assert(s.subrange(i2, i2 + l2.len() as int)[0] == s[i2]);
    }
    lemma_d_dec_at(s, i1, slot.0 as nat);
    lemma_d_lit_at(s, i2, l2);
    assert(s[i4] == '[') by {
        assert(s.subrange(i4, i4 + l3.len() as int)[0] == s[i4]);
    }
    lemma_d_dec_at(s, i3, slot.1.len());
    lemma_d_lit_at(s, i4, l3);
    lemma_d_suggs_at(s, i5, slot.1);
    lemma_d_lit_at(s, i6, l4);
}

proof fn lemma_enc_sugg_slots_first(slots: Seq<(u64, Seq<SuggM>)>)
    requires
        slots.len() > 0,
    ensures
        enc_sugg_slots(slots) == enc_sugg_slot(slots[0]) + enc_sugg_slots(slots.drop_first()),
    decreases slots.len(),
{
    if slots.len() == 1 {
        assert(slots.drop_last() =~= Seq::<(u64, Seq<SuggM>)>::empty());
        assert(slots.drop_first() =~= Seq::<(u64, Seq<SuggM>)>::empty());
        assert(slots.last() == slots[0]);
        assert(enc_sugg_slots(slots) =~= enc_sugg_slot(slots[0]) + enc_sugg_slots(
            slots.drop_first(),
        ));
    } else {
        let dl = slots.drop_last();
        lemma_enc_sugg_slots_first(dl);
        let df = slots.drop_first();
        assert(dl[0] == slots[0]);
        assert(df.drop_last() =~= dl.drop_first());
        assert(df.last() == slots.last());
        assert(enc_sugg_slots(slots) =~= enc_sugg_slot(slots[0]) + enc_sugg_slots(df));
    }
}

proof fn lemma_d_sugg_slots_at(s: Seq<char>, i: int, slots: Seq<(u64, Seq<SuggM>)>)
    requires
        bounded_sugg_slots(slots),
        at_pos(s, i, enc_sugg_slots(slots)),
    ensures
        d_sugg_slots(s, i, slots.len()) == Some((slots, i + enc_sugg_slots(slots).len() as int)),
    decreases slots.len(),
{
    if slots.len() == 0 {
        assert(slots =~= Seq::<(u64, Seq<SuggM>)>::empty());
    } else {
        lemma_enc_sugg_slots_first(slots);
        let df = slots.drop_first();
        assert(forall|k: int| 0 <= k < df.len() ==> df[k] == slots[k + 1]);
        assert(bounded_sugg_slots(df)) by {
            assert(forall|a: int, b: int|
                0 <= a < df.len() && 0 <= b < df[a].1.len() ==> df[a].1[b] == slots[a + 1].1[b]);
        }
        lemma_at_pos_split(s, i, enc_sugg_slot(slots[0]), enc_sugg_slots(df));
        lemma_d_sugg_slot_at(s, i, slots[0]);
        lemma_d_sugg_slots_at(s, i + enc_sugg_slot(slots[0]).len() as int, df);
        assert(seq![slots[0]] + df =~= slots);
    }
}

/// Round trip of the suggestion blob: a serialized store parses back to
/// exactly the model it was made from.
#[verifier::rlimit(100)]
#[verifier::spinoff_prover]
pub proof fn lemma_sugg_store_roundtrip(m: Seq<(u64, Seq<SuggM>)>)
    requires
        bounded_sugg_slots(m),
    ensures
        d_sugg_store(enc_sugg_store(m)) == Some(m),
{
    reveal_strlit("suggestions:");
    reveal_strlit("[");
    reveal_strlit("]");
    let s = enc_sugg_store(m);
    let l1 = "suggestions:"@;
    let d1 = dec_rep(m.len());
    let l2 = "["@;
    let em = enc_sugg_slots(m);
    let l3 = "]"@;
    assert(at_pos(s, 0, s)) by {
        assert(s.subrange(0, s.len() as int) =~= s);
    }
    assert(s == (((l1 + d1) + l2) + em) + l3);
    let p1 = ((l1 + d1) + l2) + em;
    lemma_at_pos_split(s, 0, p1, l3);
    let p2 = (l1 + d1) + l2;
    lemma_at_pos_split(s, 0, p2, em);
    lemma_at_pos_split(s, 0, l1 + d1, l2);
    lemma_at_pos_split(s, 0, l1, d1);
    let i1 = l1.len() as int;
    let i2 = i1 + d1.len() as int;
    let i3 = i2 + l2.len() as int;
    let i4 = i3 + em.len() as int;
    lemma_d_lit_at(s, 0, l1);
    assert(s[i2] == '[') by {
        assert(s.subrange(i2, i2 + l2.len() as int)[0] == s[i2]);
    }
    lemma_d_dec_at(s, i1, m.len());
    lemma_d_lit_at(s, i2, l2);
    lemma_d_sugg_slots_at(s, i3, m);
    lemma_d_lit_at(s, i4, l3);
}

} // verus!

verus! {

#[verifier::rlimit(100)]
#[verifier::spinoff_prover]
proof fn lemma_d_player_at(s: Seq<char>, i: int, p: PlayerM)
    requires
        at_pos(s, i, enc_player(p)),
    ensures
        d_player(s, i) == Some((p, i + enc_player(p).len() as int)),
{
    reveal_strlit("steam{owner:");
    reveal_strlit(",id:");
    reveal_strlit("}");
    let l1 = "steam{owner:"@;
    let d1 = dec_rep(p.owner as nat);
    let l2 = ",id:"@;
    let d2 = dec_rep(p.external as nat);
    let l3 = "}"@;
    let p1 = ((l1 + d1) + l2) + d2;
    lemma_at_pos_split(s, i, p1, l3);
    let p2 = (l1 + d1) + l2;
    lemma_at_pos_split(s, i, p2, d2);
    lemma_at_pos_split(s, i, l1 + d1, l2);
    lemma_at_pos_split(s, i, l1, d1);
    let i1 = i + l1.len() as int;
    let i2 = i1 + d1.len() as int;
    let i3 = i2 + l2.len() as int;
    let i4 = i3 + d2.len() as int;
    lemma_d_lit_at(s, i, l1);
    assert(s[i2] == ',') by {
        assert(s.subrange(i2, i2 + l2.len() as int)[0] == s[i2]);
    }
    lemma_d_dec_at(s, i1, p.owner as nat);
    lemma_d_lit_at(s, i2, l2);
    assert(s[i4] == '}') by {
        assert(s.subrange(i4, i4 + l3.len() as int)[0] == s[i4]);
    }
    lemma_d_dec_at(s, i3, p.external as nat);
    lemma_d_lit_at(s, i4, l3);
}

proof fn lemma_enc_players_first(items: Seq<PlayerM>)
    requires
        items.len() > 0,
    ensures
        enc_players(items) == enc_player(items[0]) + enc_players(items.drop_first()),
    decreases items.len(),
{
    if items.len() == 1 {
        assert(items.drop_last() =~= Seq::<PlayerM>::empty());
        assert(items.drop_first() =~= Seq::<PlayerM>::empty());
        assert(items.last() == items[0]);
        assert(enc_players(items) =~= enc_player(items[0]) + enc_players(items.drop_first()));
    } else {
        let dl = items.drop_last();
        lemma_enc_players_first(dl);
        let df = items.drop_first();
        assert(dl[0] == items[0]);
        assert(df.drop_last() =~= dl.drop_first());
        assert(df.last() == items.last());
        assert(enc_players(items) =~= enc_player(items[0]) + enc_players(df));
    }
}

proof fn lemma_d_players_at(s: Seq<char>, i: int, items: Seq<PlayerM>)
    requires
        at_pos(s, i, enc_players(items)),
    ensures
        d_players(s, i, items.len()) == Some((items, i + enc_players(items).len() as int)),
    decreases items.len(),
{
    if items.len() == 0 {
        assert(items =~= Seq::<PlayerM>::empty());
    } else {
        lemma_enc_players_first(items);
        let df = items.drop_first();
        lemma_at_pos_split(s, i, enc_player(items[0]), enc_players(df));
        lemma_d_player_at(s, i, items[0]);
        lemma_d_players_at(s, i + enc_player(items[0]).len() as int, df);
        assert(seq![items[0]] + df =~= items);
    }
}

#[verifier::rlimit(100)]
#[verifier::spinoff_prover]
proof fn lemma_d_player_slot_at(s: Seq<char>, i: int, slot: (u64, Seq<PlayerM>))
    requires
        slot.1.len() <= u64::MAX,
        at_pos(s, i, enc_player_slot(slot)),
    ensures
        d_player_slot(s, i) == Some((slot, i + enc_player_slot(slot).len() as int)),
{
    reveal_strlit("guild:");
    reveal_strlit(":");
    reveal_strlit("[");
    reveal_strlit("]");
    let l1 = "guild:"@;
    let d1 = dec_rep(slot.0 as nat);
    let l2 = ":"@;
    let d2 = dec_rep(slot.1.len());
    let l3 = "["@;
    let ei = enc_players(slot.1);
    let l4 = "]"@;
    let p1 = ((((l1 + d1) + l2) + d2) + l3) + ei;
    lemma_at_pos_split(s, i, p1, l4);
    let p2 = (((l1 + d1) + l2) + d2) + l3;
    lemma_at_pos_split(s, i, p2, ei);
    let p3 = ((l1 + d1) + l2) + d2;
    lemma_at_pos_split(s, i, p3, l3);
    let p4 = (l1 + d1) + l2;
    lemma_at_pos_split(s, i, p4, d2);
    lemma_at_pos_split(s, i, l1 + d1, l2);
    lemma_at_pos_split(s, i, l1, d1);
    let i1 = i + l1.len() as int;
    let i2 = i1 + d1.len() as int;
    let i3 = i2 + l2.len() as int;
    let i4 = i3 + d2.len() as int;
    let i5 = i4 + l3.len() as int;
    let i6 = i5 + ei.len() as int;
    lemma_d_lit_at(s, i, l1);
    assert(s[i2] == ':') by {
        assert(s.subrange(i2, i2 + l2.len() as int)[0] == s[i2]);
    }
    lemma_d_dec_at(s, i1, slot.0 as nat);
    lemma_d_lit_at(s, i2, l2);
    assert(s[i4] == '[') by {
        assert(s.subrange(i4, i4 + l3.len() as int)[0] == s[i4]);
    }
    lemma_d_dec_at(s, i3, slot.1.len());
    lemma_d_lit_at(s, i4, l3);
    lemma_d_players_at(s, i5, slot.1);
    lemma_d_lit_at(s, i6, l4);
}

proof fn lemma_enc_player_slots_first(slots: Seq<(u64, Seq<PlayerM>)>)
    requires
        slots.len() > 0,
    ensures
        enc_player_slots(slots) == enc_player_slot(slots[0]) + enc_player_slots(
            slots.drop_first(),
        ),
    decreases slots.len(),
{
    if slots.len() == 1 {
        assert(slots.drop_last() =~= Seq::<(u64, Seq<PlayerM>)>::empty());
        assert(slots.drop_first() =~= Seq::<(u64, Seq<PlayerM>)>::empty());
        assert(slots.last() == slots[0]);
        assert(enc_player_slots(slots) =~= enc_player_slot(slots[0]) + enc_player_slots(
            slots.drop_first(),
        ));
    } else {
        let dl = slots.drop_last();
        lemma_enc_player_slots_first(dl);
        let df = slots.drop_first();
        assert(dl[0] == slots[0]);
        assert(df.drop_last() =~= dl.drop_first());
        assert(df.last() == slots.last());
        assert(enc_player_slots(slots) =~= enc_player_slot(slots[0]) + enc_player_slots(df));
    }
}

proof fn lemma_d_player_slots_at(s: Seq<char>, i: int, slots: Seq<(u64, Seq<PlayerM>)>)
    requires
        bounded_player_slots(slots),
        at_pos(s, i, enc_player_slots(slots)),
    ensures
        d_player_slots(s, i, slots.len()) == Some(
            (slots, i + enc_player_slots(slots).len() as int),
        ),
    decreases slots.len(),
{
    if slots.len() == 0 {
        assert(slots =~= Seq::<(u64, Seq<PlayerM>)>::empty());
    } else {
        lemma_enc_player_slots_first(slots);
        let df = slots.drop_first();
        assert(forall|k: int| 0 <= k < df.len() ==> df[k] == slots[k + 1]);
        lemma_at_pos_split(s, i, enc_player_slot(slots[0]), enc_player_slots(df));
        lemma_d_player_slot_at(s, i, slots[0]);
        lemma_d_player_slots_at(s, i + enc_player_slot(slots[0]).len() as int, df);
        assert(seq![slots[0]] + df =~= slots);
    }
}

/// Round trip of the player blob: a serialized store parses back to
/// exactly the model it was made from.
#[verifier::rlimit(100)]
#[verifier::spinoff_prover]
pub proof fn lemma_player_store_roundtrip(m: Seq<(u64, Seq<PlayerM>)>)
    requires
        bounded_player_slots(m),
    ensures
        d_player_store(enc_player_store(m)) == Some(m),
{
    reveal_strlit("players:");
    reveal_strlit("[");
    reveal_strlit("]");
    let s = enc_player_store(m);
    let l1 = "players:"@;
    let d1 = dec_rep(m.len());
    let l2 = "["@;
    let em = enc_player_slots(m);
    let l3 = "]"@;
    assert(at_pos(s, 0, s)) by {
        assert(s.subrange(0, s.len() as int) =~= s);
    }
    assert(s == (((l1 + d1) + l2) + em) + l3);
    let p1 = ((l1 + d1) + l2) + em;
    lemma_at_pos_split(s, 0, p1, l3);
    let p2 = (l1 + d1) + l2;
    lemma_at_pos_split(s, 0, p2, em);
    lemma_at_pos_split(s, 0, l1 + d1, l2);
    lemma_at_pos_split(s, 0, l1, d1);
    let i1 = l1.len() as int;
    let i2 = i1 + d1.len() as int;
    let i3 = i2 + l2.len() as int;
    let i4 = i3 + em.len() as int;
    lemma_d_lit_at(s, 0, l1);
    assert(s[i2] == '[') by {
        assert(s.subrange(i2, i2 + l2.len() as int)[0] == s[i2]);
    }
    lemma_d_dec_at(s, i1, m.len());
    lemma_d_lit_at(s, i2, l2);
    lemma_d_player_slots_at(s, i3, m);
    lemma_d_lit_at(s, i4, l3);
}

} // verus!

verus! {

/// Whether `c` is a decimal digit, as `is_digit` describes.
fn is_digit_char(c: char) -> (r: bool)
    ensures
        r == is_digit(c),
{
    let u = c as u32;
    48 <= u && u <= 57
}

proof fn lemma_digit_end_props(s: Seq<char>, i: int)
    requires
        0 <= i <= s.len(),
    ensures
        i <= digit_end(s, i) <= s.len(),
        forall|k: int| i <= k < digit_end(s, i) ==> is_digit(s[k]),
        digit_end(s, i) < s.len() ==> !is_digit(s[digit_end(s, i)]),
    decreases s.len() - i,
{
    if i < s.len() && is_digit(s[i]) {
        lemma_digit_end_props(s, i + 1);
    }
}

/// The literal `lit` at position `i`, as `d_lit` describes.
#[verifier::loop_isolation(false)]
fn p_lit(s: &str, i: usize, lit: &str) -> (r: Option<usize>)
    requires
        i <= s@.len(),
    ensures
        match r {
            Some(j) => d_lit(s@, i as int, lit@) == Some(j as int) && i <= j <= s@.len(),
            None => d_lit(s@, i as int, lit@) is None,
        },
{
    let n = s.unicode_len();
    let m = lit.unicode_len();
    if m > n - i {
        return None;
    }
    let mut k: usize = 0;
    while k < m
        invariant
            0 <= k <= m,
            forall|t: int| 0 <= t < k ==> s@[i + t] == lit@[t],
        decreases m - k,
    {
        if s.get_char(i + k) != lit.get_char(k) {
            proof {
                if d_lit(s@, i as int, lit@) is Some {
                    assert(s@.subrange(i as int, i + lit@.len() as int) == lit@);
                    assert(s@.subrange(i as int, i + lit@.len() as int)[k as int] == s@[i + k]);
                }
            }
            return None;
        }
        k = k + 1;
    }
    proof {
        assert(s@.subrange(i as int, i + lit@.len() as int) =~= lit@);
    }
    Some(i + m)
}

/// A decimal number at position `i`, as `d_dec` describes.
#[verifier::loop_isolation(false)]
fn p_dec(s: &str, i: usize) -> (r: Option<(u64, usize)>)
    requires
        i <= s@.len(),
    ensures
        match r {
            Some(p) => d_dec(s@, i as int) == Some((p.0, p.1 as int)) && i < p.1 <= s@.len(),
            None => d_dec(s@, i as int) is None,
        },
{
    let n = s.unicode_len();
    proof {
        lemma_digit_end_props(s@, i as int);
    }
    let ghost de = digit_end(s@, i as int);
    let mut j: usize = i;
    while j < n && is_digit_char(s.get_char(j))
        invariant
            i <= j <= n,
            forall|k: int| i <= k < j ==> is_digit(s@[k]),
        decreases n - j,
    {
        j = j + 1;
    }
    proof {
        lemma_digit_end_at(s@, i as int, j as int);
    }
    if j == i {
        return None;
    }
    let ghost run = s@.subrange(i as int, j as int);
    proof {
        assert(forall|k: int| 0 <= k < run.len() ==> is_digit(run[k]));
    }
    let mut acc: u64 = 0;
    let mut k: usize = i;
    while k < j
        invariant
            i <= k <= j,
            acc == dec_val(s@.subrange(i as int, k as int)),
        decreases j - k,
    {
        let c = s.get_char(k);
        let u = c as u32;
        let d = (u - 48) as u64;
        proof {
            assert(s@.subrange(i as int, k + 1).drop_last() =~= s@.subrange(i as int, k as int));
            assert(s@.subrange(i as int, k + 1).last() == s@[k as int]);
        }
        if acc > (u64::MAX - d) / 10 {
            proof {
                assert(dec_val(s@.subrange(i as int, k + 1)) == acc * 10 + d);
                assert(acc * 10 + d > u64::MAX) by (nonlinear_arith)
                    requires
                        acc > (u64::MAX - d) / 10,
                        0 <= d <= 9,
                        acc <= u64::MAX,
                ;
                crate::text::lemma_dec_val_prefix(run, k + 1 - i);
                assert(run.subrange(0, k + 1 - i) =~= s@.subrange(i as int, k + 1));
            }
            return None;
        }
        proof {
            assert(acc * 10 + d <= u64::MAX) by (nonlinear_arith)
                requires
                    acc <= (u64::MAX - d) / 10,
                    0 <= d <= 9,
                    acc >= 0,
            ;
        }
        acc = acc * 10 + d;
        k = k + 1;
    }
    Some((acc, j))
}

/// A length-prefixed string at position `i`, as `d_str` describes.
#[verifier::loop_isolation(false)]
fn p_str(s: &str, i: usize) -> (r: Option<(String, usize)>)
    requires
        i <= s@.len(),
    ensures
        match r {
            Some(p) => d_str(s@, i as int) == Some((p.0@, p.1 as int)) && i <= p.1 <= s@.len(),
            None => d_str(s@, i as int) is None,
        },
{
    let n = s.unicode_len();
    match p_dec(s, i) {
        None => None,
        Some((nv, j)) => match p_lit(s, j, ":") {
            None => None,
            Some(j2) => {
                if nv > (n - j2) as u64 {
                    return None;
                }
                let take = nv as usize;
                let mut t = String::new();
                let mut k: usize = j2;
                while k < j2 + take
                    invariant
                        j2 <= k <= j2 + take,
                        j2 + take <= n == s@.len(),
                        t@ == s@.subrange(j2 as int, k as int),
                    decreases j2 + take - k,
                {
                    push_char(&mut t, s.get_char(k));
                    proof {
                        assert(s@.subrange(j2 as int, k + 1) =~= s@.subrange(
                            j2 as int,
                            k as int,
                        ).push(s@[k as int]));
                    }
                    k = k + 1;
                }
                Some((t, j2 + take))
            },
        },
    }
}

/// An optional string at position `i`, as `d_opt` describes.
fn p_opt(s: &str, i: usize) -> (r: Option<(Option<String>, usize)>)
    requires
        i <= s@.len(),
    ensures
        match r {
            Some(p) => d_opt(s@, i as int) == Some(
                (
                    match p.0 {
                        Some(ref t) => Some(t@),
                        None => None,
                    },
                    p.1 as int,
                ),
            ) && i <= p.1 <= s@.len(),
            None => d_opt(s@, i as int) is None,
        },
{
    proof {
        reveal_strlit("-");
        reveal_strlit("+");
    }
    match p_lit(s, i, "-") {
        Some(j) => Some((None, j)),
        None => match p_lit(s, i, "+") {
            None => None,
            Some(j) => match p_str(s, j) {
                None => None,
                Some((t, j2)) => Some((Some(t), j2)),
            },
        },
    }
}

/// One suggestion record at position `i`, as `d_sugg` describes.
fn p_sugg(s: &str, i: usize) -> (r: Option<(Suggestion, usize)>)
    requires
        i <= s@.len(),
    ensures
        match r {
            Some(p) => d_sugg(s@, i as int) == Some((p.0@, p.1 as int)) && i <= p.1 <= s@.len(),
            None => d_sugg(s@, i as int) is None,
        },
{
    match p_lit(s, i, "steam{owner:") {
        Some(j0) => {
            match p_dec(s, j0) {
                None => None,
                Some((owner, j1)) => match p_lit(s, j1, ",app:") {
                    None => None,
                    Some(j2) => match p_dec(s, j2) {
                        None => None,
                        Some((id, j3)) => {
                            if id > 0xFFFF_FFFF {
                                return None;
                            }
                            match p_lit(s, j3, ",name:") {
                                None => None,
                                Some(j4) => match p_str(s, j4) {
                                    None => None,
                                    Some((name, j5)) => match p_lit(s, j5, "}") {
                                        None => None,
                                        Some(j6) => Some(
                                            (
                                                Suggestion::Steam(
                                                    owner,
                                                    crate::catalog::App { id: id as u32, name },
                                                ),
                                                j6,
                                            ),
                                        ),
                                    },
                                },
                            }
                        },
                    },
                },
            }
        },
        None => match p_lit(s, i, "plain{owner:") {
            None => None,
            Some(j0) => match p_dec(s, j0) {
                None => None,
                Some((owner, j1)) => match p_lit(s, j1, ",title:") {
                    None => None,
                    Some(j2) => match p_str(s, j2) {
                        None => None,
                        Some((title, j3)) => match p_lit(s, j3, ",genre:") {
                            None => None,
                            Some(j4) => match p_opt(s, j4) {
                                None => None,
                                Some((genre, j5)) => match p_lit(s, j5, ",url:") {
                                    None => None,
                                    Some(j6) => match p_opt(s, j6) {
                                        None => None,
                                        Some((url, j7)) => match p_lit(s, j7, "}") {
                                            None => None,
                                            Some(j8) => Some(
                                                (
                                                    Suggestion::PlainText(
                                                        owner,
                                                        crate::suggest::TextSuggestion {
                                                            title,
                                                            genre,
                                                            url,
                                                        },
                                                    ),
                                                    j8,
                                                ),
                                            ),
                                        },
                                    },
                                },
                            },
                        },
                    },
                },
            },
        },
    }
}

/// Exactly `count` suggestion records from position `i`, as `d_suggs`
/// describes.
#[verifier::loop_isolation(false)]
fn p_suggs(s: &str, i: usize, count: u64) -> (r: Option<(Vec<Suggestion>, usize)>)
    requires
        i <= s@.len(),
    ensures
        match r {
            Some(p) => d_suggs(s@, i as int, count as nat) == Some(
                (p.0@.map_values(|t: Suggestion| t@), p.1 as int),
            ) && i <= p.1 <= s@.len(),
            None => d_suggs(s@, i as int, count as nat) is None,
        },
{
    let mut items: Vec<Suggestion> = Vec::new();
    let mut pos: usize = i;
    let mut k: u64 = 0;
    while k < count
        invariant
            0 <= k <= count,
            i <= pos <= s@.len(),
            d_suggs(s@, i as int, count as nat) == (match d_suggs(
                s@,
                pos as int,
                (count - k) as nat,
            ) {
                None => None::<(Seq<SuggM>, int)>,
                Some((rest, j)) => Some((items@.map_values(|t: Suggestion| t@) + rest, j)),
            }),
        decreases count - k,
    {
        match p_sugg(s, pos) {
            None => {
                return None;
            },
            Some((v, j)) => {
                let ghost before = items@.map_values(|t: Suggestion| t@);
                items.push(v);
                proof {
                    assert(items@.map_values(|t: Suggestion| t@) =~= before.push(v@));
                    assert forall|rest: Seq<SuggM>|
                        true implies before + (seq![v@] + rest) =~= before.push(v@) + rest by {
                    }
                }
                pos = j;
                k = k + 1;
            },
        }
    }
    proof {
        assert(items@.map_values(|t: Suggestion| t@) + Seq::<SuggM>::empty() =~= items@.map_values(
            |t: Suggestion| t@,
        ));
    }
    Some((items, pos))
}

/// One guild's suggestion slot at position `i`, as `d_sugg_slot`
/// describes.
fn p_sugg_slot(s: &str, i: usize) -> (r: Option<(GuildSlot<Suggestion>, usize)>)
    requires
        i <= s@.len(),
    ensures
        match r {
            Some(p) => d_sugg_slot(s@, i as int) == Some((p.0.model(), p.1 as int)) && i <= p.1
                <= s@.len(),
            None => d_sugg_slot(s@, i as int) is None,
        },
{
    match p_lit(s, i, "guild:") {
        None => None,
        Some(j0) => match p_dec(s, j0) {
            None => None,
            Some((g, j1)) => match p_lit(s, j1, ":") {
                None => None,
                Some(j2) => match p_dec(s, j2) {
                    None => None,
                    Some((count, j3)) => match p_lit(s, j3, "[") {
                        None => None,
                        Some(j4) => match p_suggs(s, j4, count) {
                            None => None,
                            Some((items, j5)) => match p_lit(s, j5, "]") {
                                None => None,
                                Some(j6) => Some((GuildSlot { guild: g, items }, j6)),
                            },
                        },
                    },
                },
            },
        },
    }
}

/// Exactly `count` suggestion slots from position `i`, as `d_sugg_slots`
/// describes.
#[verifier::loop_isolation(false)]
fn p_sugg_slots(s: &str, i: usize, count: u64) -> (r: Option<
    (Vec<GuildSlot<Suggestion>>, usize),
>)
    requires
        i <= s@.len(),
    ensures
        match r {
            Some(p) => d_sugg_slots(s@, i as int, count as nat) == Some(
                (p.0@.map_values(|t: GuildSlot<Suggestion>| t.model()), p.1 as int),
            ) && i <= p.1 <= s@.len(),
            None => d_sugg_slots(s@, i as int, count as nat) is None,
        },
{
    let mut slots: Vec<GuildSlot<Suggestion>> = Vec::new();
    let mut pos: usize = i;
    let mut k: u64 = 0;
    while k < count
        invariant
            0 <= k <= count,
            i <= pos <= s@.len(),
            d_sugg_slots(s@, i as int, count as nat) == (match d_sugg_slots(
                s@,
                pos as int,
                (count - k) as nat,
            ) {
                None => None::<(Seq<(u64, Seq<SuggM>)>, int)>,
                Some((rest, j)) => Some(
                    (slots@.map_values(|t: GuildSlot<Suggestion>| t.model()) + rest, j),
                ),
            }),
        decreases count - k,
    {
        match p_sugg_slot(s, pos) {
            None => {
                return None;
            },
            Some((v, j)) => {
                let ghost before = slots@.map_values(|t: GuildSlot<Suggestion>| t.model());
                let ghost vm = v.model();
                slots.push(v);
                proof {
                    assert(slots@.map_values(|t: GuildSlot<Suggestion>| t.model()) =~~= before.push(
                        vm,
                    ));
                    assert forall|rest: Seq<(u64, Seq<SuggM>)>|
                        true implies before + (seq![vm] + rest) =~= before.push(vm) + rest by {
                    }
                }
                pos = j;
                k = k + 1;
            },
        }
    }
    proof {
        assert(slots@.map_values(|t: GuildSlot<Suggestion>| t.model()) + Seq::<
            (u64, Seq<SuggM>),
        >::empty() =~= slots@.map_values(|t: GuildSlot<Suggestion>| t.model()));
    }
    Some((slots, pos))
}

} // verus!

verus! {

/// One player mapping record at position `i`, as `d_player` describes.
fn p_player(s: &str, i: usize) -> (r: Option<(Player, usize)>)
    requires
        i <= s@.len(),
    ensures
        match r {
            Some(p) => d_player(s@, i as int) == Some((p.0@, p.1 as int)) && i <= p.1 <= s@.len(),
            None => d_player(s@, i as int) is None,
        },
{
    match p_lit(s, i, "steam{owner:") {
        None => None,
        Some(j0) => match p_dec(s, j0) {
            None => None,
            Some((owner, j1)) => match p_lit(s, j1, ",id:") {
                None => None,
                Some(j2) => match p_dec(s, j2) {
                    None => None,
                    Some((external, j3)) => match p_lit(s, j3, "}") {
                        None => None,
                        Some(j4) => Some((Player::Steam(owner, external), j4)),
                    },
                },
            },
        },
    }
}

/// Exactly `count` player records from position `i`, as `d_players`
/// describes.
#[verifier::loop_isolation(false)]
fn p_players(s: &str, i: usize, count: u64) -> (r: Option<(Vec<Player>, usize)>)
    requires
        i <= s@.len(),
    ensures
        match r {
            Some(p) => d_players(s@, i as int, count as nat) == Some(
                (p.0@.map_values(|t: Player| t@), p.1 as int),
            ) && i <= p.1 <= s@.len(),
            None => d_players(s@, i as int, count as nat) is None,
        },
{
    let mut items: Vec<Player> = Vec::new();
    let mut pos: usize = i;
    let mut k: u64 = 0;
    while k < count
        invariant
            0 <= k <= count,
            i <= pos <= s@.len(),
            d_players(s@, i as int, count as nat) == (match d_players(
                s@,
                pos as int,
                (count - k) as nat,
            ) {
                None => None::<(Seq<PlayerM>, int)>,
                Some((rest, j)) => Some((items@.map_values(|t: Player| t@) + rest, j)),
            }),
        decreases count - k,
    {
        match p_player(s, pos) {
            None => {
                return None;
            },
            Some((v, j)) => {
                let ghost before = items@.map_values(|t: Player| t@);
                items.push(v);
                proof {
                    assert(items@.map_values(|t: Player| t@) =~= before.push(v@));
                    assert forall|rest: Seq<PlayerM>|
                        true implies before + (seq![v@] + rest) =~= before.push(v@) + rest by {
                    }
                }
                pos = j;
                k = k + 1;
            },
        }
    }
    proof {
        assert(items@.map_values(|t: Player| t@) + Seq::<PlayerM>::empty() =~= items@.map_values(
            |t: Player| t@,
        ));
    }
    Some((items, pos))
}

/// One guild's player slot at position `i`, as `d_player_slot` describes.
fn p_player_slot(s: &str, i: usize) -> (r: Option<(GuildSlot<Player>, usize)>)
    requires
        i <= s@.len(),
    ensures
        match r {
            Some(p) => d_player_slot(s@, i as int) == Some((p.0.model(), p.1 as int)) && i <= p.1
                <= s@.len(),
            None => d_player_slot(s@, i as int) is None,
        },
{
    match p_lit(s, i, "guild:") {
        None => None,
        Some(j0) => match p_dec(s, j0) {
            None => None,
            Some((g, j1)) => match p_lit(s, j1, ":") {
                None => None,
                Some(j2) => match p_dec(s, j2) {
                    None => None,
                    Some((count, j3)) => match p_lit(s, j3, "[") {
                        None => None,
                        Some(j4) => match p_players(s, j4, count) {
                            None => None,
                            Some((items, j5)) => match p_lit(s, j5, "]") {
                                None => None,
                                Some(j6) => Some((GuildSlot { guild: g, items }, j6)),
                            },
                        },
                    },
                },
            },
        },
    }
}

/// Exactly `count` player slots from position `i`, as `d_player_slots`
/// describes.
#[verifier::loop_isolation(false)]
fn p_player_slots(s: &str, i: usize, count: u64) -> (r: Option<(Vec<GuildSlot<Player>>, usize)>)
    requires
        i <= s@.len(),
    ensures
        match r {
            Some(p) => d_player_slots(s@, i as int, count as nat) == Some(
                (p.0@.map_values(|t: GuildSlot<Player>| t.model()), p.1 as int),
            ) && i <= p.1 <= s@.len(),
            None => d_player_slots(s@, i as int, count as nat) is None,
        },
{
    let mut slots: Vec<GuildSlot<Player>> = Vec::new();
    let mut pos: usize = i;
    let mut k: u64 = 0;
    while k < count
        invariant
            0 <= k <= count,
            i <= pos <= s@.len(),
            d_player_slots(s@, i as int, count as nat) == (match d_player_slots(
                s@,
                pos as int,
                (count - k) as nat,
            ) {
                None => None::<(Seq<(u64, Seq<PlayerM>)>, int)>,
                Some((rest, j)) => Some(
                    (slots@.map_values(|t: GuildSlot<Player>| t.model()) + rest, j),
                ),
            }),
        decreases count - k,
    {
        match p_player_slot(s, pos) {
            None => {
                return None;
            },
            Some((v, j)) => {
                let ghost before = slots@.map_values(|t: GuildSlot<Player>| t.model());
                let ghost vm = v.model();
                slots.push(v);
                proof {
                    assert(slots@.map_values(|t: GuildSlot<Player>| t.model()) =~~= before.push(
                        vm,
                    ));
                    assert forall|rest: Seq<(u64, Seq<PlayerM>)>|
                        true implies before + (seq![vm] + rest) =~= before.push(vm) + rest by {
                    }
                }
                pos = j;
                k = k + 1;
            },
        }
    }
    proof {
        assert(slots@.map_values(|t: GuildSlot<Player>| t.model()) + Seq::<
            (u64, Seq<PlayerM>),
        >::empty() =~= slots@.map_values(|t: GuildSlot<Player>| t.model()));
    }
    Some((slots, pos))
}

/// A decoded suggestion store that can be loaded: guild keys unique,
/// normalized titles unique within each guild.
pub open spec fn wf_sugg_model(m: Seq<(u64, Seq<SuggM>)>) -> bool {
    &&& unique_guilds(m)
    &&& forall|i: int| 0 <= i < m.len() ==> norm_unique((#[trigger] m[i]).1)
}

/// A decoded player store that can be loaded: guild keys unique, owners
/// unique within each guild.
pub open spec fn wf_player_model(m: Seq<(u64, Seq<PlayerM>)>) -> bool {
    &&& unique_guilds(m)
    &&& forall|i: int| 0 <= i < m.len() ==> owners_unique((#[trigger] m[i]).1)
}

/// Whether the suggestion slots carry pairwise distinct guild keys.
#[verifier::loop_isolation(false)]
fn check_unique_guilds_sugg(slots: &Vec<GuildSlot<Suggestion>>) -> (r: bool)
    ensures
        r == unique_guilds(slots@.map_values(|t: GuildSlot<Suggestion>| t.model())),
{
    let ghost m = slots@.map_values(|t: GuildSlot<Suggestion>| t.model());
    let n = slots.len();
    let mut i: usize = 0;
    while i < n
        invariant
            0 <= i <= n,
            forall|a: int, b: int| 0 <= a < b < n && a < i ==> m[a].0 != m[b].0,
        decreases n - i,
    {
        let mut j: usize = i + 1;
        while j < n
            invariant
                i < n,
                i + 1 <= j <= n,
                forall|b: int| i < b < j ==> m[i as int].0 != m[b].0,
            decreases n - j,
        {
            if slots[i].guild == slots[j].guild {
                proof {
                    assert(0 <= i < j < n && m[i as int].0 == m[j as int].0);
                }
                return false;
            }
            j = j + 1;
        }
        i = i + 1;
    }
    true
}

/// Whether the player slots carry pairwise distinct guild keys.
#[verifier::loop_isolation(false)]
fn check_unique_guilds_player(slots: &Vec<GuildSlot<Player>>) -> (r: bool)
    ensures
        r == unique_guilds(slots@.map_values(|t: GuildSlot<Player>| t.model())),
{
    let ghost m = slots@.map_values(|t: GuildSlot<Player>| t.model());
    let n = slots.len();
    let mut i: usize = 0;
    while i < n
        invariant
            0 <= i <= n,
            forall|a: int, b: int| 0 <= a < b < n && a < i ==> m[a].0 != m[b].0,
        decreases n - i,
    {
        let mut j: usize = i + 1;
        while j < n
            invariant
                i < n,
                i + 1 <= j <= n,
                forall|b: int| i < b < j ==> m[i as int].0 != m[b].0,
            decreases n - j,
        {
            if slots[i].guild == slots[j].guild {
                proof {
                    assert(0 <= i < j < n && m[i as int].0 == m[j as int].0);
                }
                return false;
            }
            j = j + 1;
        }
        i = i + 1;
    }
    true
}

/// Whether no two suggestions of the list share a normalized title.
#[verifier::loop_isolation(false)]
fn check_norm_unique(items: &Vec<Suggestion>) -> (r: bool)
    ensures
        r == norm_unique(items@.map_values(|t: Suggestion| t@)),
{
    let ghost m = items@.map_values(|t: Suggestion| t@);
    let n = items.len();
    let mut i: usize = 0;
    while i < n
        invariant
            0 <= i <= n,
            forall|a: int, b: int| 0 <= a < b < n && a < i ==> m[a].key() != m[b].key(),
        decreases n - i,
    {
        let mut j: usize = i + 1;
        while j < n
            invariant
                i < n,
                i + 1 <= j <= n,
                forall|b: int| i < b < j ==> m[i as int].key() != m[b].key(),
            decreases n - j,
        {
            if same_title(items[i].title(), items[j].title()) {
                proof {
                    assert(0 <= i < j < n && m[i as int].key() == m[j as int].key());
                }
                return false;
            }
            j = j + 1;
        }
        i = i + 1;
    }
    true
}

/// Whether no two mappings of the list share an owner.
#[verifier::loop_isolation(false)]
fn check_owners_unique(items: &Vec<Player>) -> (r: bool)
    ensures
        r == owners_unique(items@.map_values(|t: Player| t@)),
{
    let ghost m = items@.map_values(|t: Player| t@);
    let n = items.len();
    let mut i: usize = 0;
    while i < n
        invariant
            0 <= i <= n,
            forall|a: int, b: int| 0 <= a < b < n && a < i ==> m[a].owner != m[b].owner,
        decreases n - i,
    {
        let mut j: usize = i + 1;
        while j < n
            invariant
                i < n,
                i + 1 <= j <= n,
                forall|b: int| i < b < j ==> m[i as int].owner != m[b].owner,
            decreases n - j,
        {
            if items[i].discord() == items[j].discord() {
                proof {
                    assert(0 <= i < j < n && m[i as int].owner == m[j as int].owner);
                }
                return false;
            }
            j = j + 1;
        }
        i = i + 1;
    }
    true
}

/// Parses a suggestion-store blob back into a store. Succeeds exactly
/// when the blob parses and the decoded store is well-formed; any other
/// blob is a corrupt snapshot.
#[verifier::loop_isolation(false)]
pub fn load_suggestions(s: &str) -> (r: Result<GameSuggestions, SnapshotError>)
    ensures
        match r {
            Ok(st) => st.wf() && d_sugg_store(s@) == Some(st.model()),
            Err(e) => e == SnapshotError::CorruptSnapshot && (match d_sugg_store(s@) {
                None => true,
                Some(m) => !wf_sugg_model(m),
            }),
        },
{
    let n = s.unicode_len();
    match p_lit(s, 0, "suggestions:") {
        None => Err(SnapshotError::CorruptSnapshot),
        Some(i0) => match p_dec(s, i0) {
            None => Err(SnapshotError::CorruptSnapshot),
            Some((count, i1)) => match p_lit(s, i1, "[") {
                None => Err(SnapshotError::CorruptSnapshot),
                Some(i2) => match p_sugg_slots(s, i2, count) {
                    None => Err(SnapshotError::CorruptSnapshot),
                    Some((slots, i3)) => match p_lit(s, i3, "]") {
                        None => Err(SnapshotError::CorruptSnapshot),
                        Some(i4) => {
                            if i4 != n {
                                return Err(SnapshotError::CorruptSnapshot);
                            }
                            if !check_unique_guilds_sugg(&slots) {
                                return Err(SnapshotError::CorruptSnapshot);
                            }
                            let mut k: usize = 0;
                            let ghost m = slots@.map_values(
                                |t: GuildSlot<Suggestion>| t.model(),
                            );
                            while k < slots.len()
                                invariant
                                    0 <= k <= slots@.len(),
                                    forall|i: int| 0 <= i < k ==> norm_unique(m[i].1),
                                decreases slots@.len() - k,
                            {
                                if !check_norm_unique(&slots[k].items) {
                                    proof {
                                        assert(!norm_unique(m[k as int].1));
                                    }
                                    return Err(SnapshotError::CorruptSnapshot);
                                }
                                k = k + 1;
                            }
                            let st = GameSuggestions { slots };
                            proof {
                                assert(st.model() == m);
                                assert forall|g: u64| norm_unique(#[trigger] st.at(g)) by {
                                    if exists|i: int| 0 <= i < m.len() && m[i].0 == g {
                                        let i = choose|i: int|
                                            0 <= i < m.len() && m[i].0 == g;
                                        crate::store::lemma_seq_at_found(m, i);
                                    } else {
                                        crate::store::lemma_seq_at_absent(m, g);
                                    }
                                }
                            }
                            Ok(st)
                        },
                    },
                },
            },
        },
    }
}

/// Parses a player-store blob back into a store. Succeeds exactly when
/// the blob parses and the decoded store is well-formed; any other blob
/// is a corrupt snapshot.
#[verifier::loop_isolation(false)]
pub fn load_players(s: &str) -> (r: Result<PlayerContainer, SnapshotError>)
    ensures
        match r {
            Ok(st) => st.wf() && d_player_store(s@) == Some(st.model()),
            Err(e) => e == SnapshotError::CorruptSnapshot && (match d_player_store(s@) {
                None => true,
                Some(m) => !wf_player_model(m),
            }),
        },
{
    let n = s.unicode_len();
    match p_lit(s, 0, "players:") {
        None => Err(SnapshotError::CorruptSnapshot),
        Some(i0) => match p_dec(s, i0) {
            None => Err(SnapshotError::CorruptSnapshot),
            Some((count, i1)) => match p_lit(s, i1, "[") {
                None => Err(SnapshotError::CorruptSnapshot),
                Some(i2) => match p_player_slots(s, i2, count) {
                    None => Err(SnapshotError::CorruptSnapshot),
                    Some((slots, i3)) => match p_lit(s, i3, "]") {
                        None => Err(SnapshotError::CorruptSnapshot),
                        Some(i4) => {
                            if i4 != n {
                                return Err(SnapshotError::CorruptSnapshot);
                            }
                            if !check_unique_guilds_player(&slots) {
                                return Err(SnapshotError::CorruptSnapshot);
                            }
                            let mut k: usize = 0;
                            let ghost m = slots@.map_values(|t: GuildSlot<Player>| t.model());
                            while k < slots.len()
                                invariant
                                    0 <= k <= slots@.len(),
                                    forall|i: int| 0 <= i < k ==> owners_unique(m[i].1),
                                decreases slots@.len() - k,
                            {
                                if !check_owners_unique(&slots[k].items) {
                                    proof {
                                        assert(!owners_unique(m[k as int].1));
                                    }
                                    return Err(SnapshotError::CorruptSnapshot);
                                }
                                k = k + 1;
                            }
                            let st = PlayerContainer { slots };
                            proof {
                                assert(st.model() == m);
                                assert forall|g: u64| owners_unique(#[trigger] st.at(g)) by {
                                    if exists|i: int| 0 <= i < m.len() && m[i].0 == g {
                                        let i = choose|i: int|
                                            0 <= i < m.len() && m[i].0 == g;
                                        crate::store::lemma_seq_at_found(m, i);
                                    } else {
                                        crate::store::lemma_seq_at_absent(m, g);
                                    }
                                }
                            }
                            Ok(st)
                        },
                    },
                },
            },
        },
    }
}

} // verus!
