//! The common-games query: the owned-game-set intersector (a left fold of
//! pairwise intersections by catalog id), display-name resolution of the
//! requested callers, line formatting, and the greedy packing of result
//! lines into bounded-size text chunks.

use vstd::prelude::*;
use crate::catalog::{AppM, Apps, app_url, find_app_by_id, lemma_find_app_by_id, url_of};
use crate::errors::CommonGamesError;
use crate::players::{Player, PlayerM, PlayerContainer, lookups};
use crate::text::str_eq;

verus! {

/// The model of an owned-game record.
pub ghost struct OwnedGameM {
    pub appid: u32,
    pub name: Option<Seq<char>>,
    pub playtime_forever: u32,
    pub img_icon_url: Option<Seq<char>>,
    pub img_logo_url: Option<Seq<char>>,
    pub playtime_windows_forever: u32,
    pub playtime_mac_forever: u32,
    pub playtime_linux_forever: u32,
}

/// An owned-game record, as the catalog collaborator reports it: the
/// catalog id, a cached display name where the catalog sent one, and the
/// playtime totals. Not persisted; recomputed per query.
pub struct OwnedGame {
    pub appid: u32,
    pub name: Option<String>,
    pub playtime_forever: u32,
    pub img_icon_url: Option<String>,
    pub img_logo_url: Option<String>,
    pub playtime_windows_forever: u32,
    pub playtime_mac_forever: u32,
    pub playtime_linux_forever: u32,
}

impl View for OwnedGame {
    type V = OwnedGameM;

    open spec fn view(&self) -> OwnedGameM {
        OwnedGameM {
            appid: self.appid,
            name: match self.name {
                Some(ref n) => Some(n@),
                None => None,
            },
            playtime_forever: self.playtime_forever,
            img_icon_url: match self.img_icon_url {
                Some(ref u) => Some(u@),
                None => None,
            },
            img_logo_url: match self.img_logo_url {
                Some(ref u) => Some(u@),
                None => None,
            },
            playtime_windows_forever: self.playtime_windows_forever,
            playtime_mac_forever: self.playtime_mac_forever,
            playtime_linux_forever: self.playtime_linux_forever,
        }
    }
}

impl OwnedGame {
    /// A copy of this record.
    pub fn duplicate(&self) -> (r: OwnedGame)
        ensures
            r@ == self@,
    {
        OwnedGame {
            appid: self.appid,
            name: match &self.name {
                Some(n) => Some(n.clone()),
                None => None,
            },
            playtime_forever: self.playtime_forever,
            img_icon_url: match &self.img_icon_url {
                Some(u) => Some(u.clone()),
                None => None,
            },
            img_logo_url: match &self.img_logo_url {
                Some(u) => Some(u.clone()),
                None => None,
            },
            playtime_windows_forever: self.playtime_windows_forever,
            playtime_mac_forever: self.playtime_mac_forever,
            playtime_linux_forever: self.playtime_linux_forever,
        }
    }
}

/// Whether two owned-game records are the same game: equal catalog ids.
pub open spec fn same_game(a: OwnedGameM, b: OwnedGameM) -> bool {
    a.appid == b.appid
}

/// Whether two owned-game records are the same game, as `same_game`
/// describes.
pub fn owned_game_eq(this: &OwnedGame, other: &OwnedGame) -> (r: bool)
    ensures
        r == same_game(this@, other@),
{
    this.appid == other.appid
}

/// One caller's owned-game list, with the count the catalog reported.
pub struct OwnedGames {
    pub game_count: u32,
    pub games: Vec<OwnedGame>,
}

impl OwnedGames {
    /// The list as a sequence of models.
    pub open spec fn model(&self) -> Seq<OwnedGameM> {
        self.games@.map_values(|g: OwnedGame| g@)
    }

    /// Consistent: the reported count is the list's length.
    pub open spec fn wf(&self) -> bool {
        self.game_count == self.games@.len()
    }
}

/// Whether some record in `r` has catalog id `id`.
pub open spec fn owns_game(r: Seq<OwnedGameM>, id: u32) -> bool {
    exists|i: int| 0 <= i < r.len() && r[i].appid == id
}

/// The games of `l` also present in `r` by catalog id, in `l`'s order.
pub open spec fn common_of(l: Seq<OwnedGameM>, r: Seq<OwnedGameM>) -> Seq<OwnedGameM>
    decreases l.len(),
{
    if l.len() == 0 {
        Seq::<OwnedGameM>::empty()
    } else {
        common_of(l.drop_last(), r) + (if owns_game(r, l.last().appid) {
            seq![l.last()]
        } else {
            Seq::<OwnedGameM>::empty()
        })
    }
}

/// An intersection is no longer than its left operand.
pub proof fn lemma_common_of_len(l: Seq<OwnedGameM>, r: Seq<OwnedGameM>)
    ensures
        common_of(l, r).len() <= l.len(),
    decreases l.len(),
{
    if l.len() > 0 {
        lemma_common_of_len(l.drop_last(), r);
    }
}

/// Whether any record of `r` is the same game as `g`.
#[verifier::loop_isolation(false)]
fn any_same_game(r: &Vec<OwnedGame>, g: &OwnedGame) -> (b: bool)
    ensures
        b == owns_game(r@.map_values(|x: OwnedGame| x@), g@.appid),
{
    let ghost m = r@.map_values(|x: OwnedGame| x@);
    let n = r.len();
    let mut i: usize = 0;
    while i < n
        invariant
            0 <= i <= n,
            forall|j: int| 0 <= j < i ==> m[j].appid != g@.appid,
        decreases n - i,
    {
        if owned_game_eq(&r[i], g) {
            proof {
                assert(0 <= i < m.len() && m[i as int].appid == g@.appid);
            }
            return true;
        }
        i = i + 1;
    }
    false
}

/// The two-list intersection: the games of `left` also owned in `right`,
/// with the count set to the result's length. Quadratic by design: the
/// lists are small, and clarity wins over asymptotic optimality.
#[verifier::loop_isolation(false)]
pub fn find_common(left: &OwnedGames, right: &OwnedGames) -> (r: OwnedGames)
    requires
        left.games@.len() <= u32::MAX,
    ensures
        r.model() == common_of(left.model(), right.model()),
        r.wf(),
{
    let ghost lm = left.model();
    let ghost rm = right.model();
    let mut games: Vec<OwnedGame> = Vec::new();
    let n = left.games.len();
    let mut i: usize = 0;
    while i < n
        invariant
            0 <= i <= n,
            games@.map_values(|g: OwnedGame| g@) =~= common_of(lm.subrange(0, i as int), rm),
            games@.len() <= i,
        decreases n - i,
    {
        proof {
            let p = lm.subrange(0, i + 1);
            assert(p.drop_last() =~= lm.subrange(0, i as int));
            assert(p.last() == lm[i as int]);
        }
        if any_same_game(&right.games, &left.games[i]) {
            games.push(left.games[i].duplicate());
        }
        proof {
            assert(games@.map_values(|g: OwnedGame| g@) =~= common_of(
                lm.subrange(0, i + 1),
                rm,
            ));
        }
        i = i + 1;
    }
    proof {
        assert(lm.subrange(0, n as int) =~= lm);
    }
    let count = games.len() as u32;
    OwnedGames { game_count: count, games }
}

/// The left fold of pairwise intersections, starting from `acc`.
pub open spec fn fold_common(acc: Seq<OwnedGameM>, lists: Seq<Seq<OwnedGameM>>) -> Seq<
    OwnedGameM,
>
    decreases lists.len(),
{
    if lists.len() == 0 {
        acc
    } else {
        fold_common(common_of(acc, lists[0]), lists.drop_first())
    }
}

/// The intersection across all lists: the last list is the starting
/// accumulator, folded over the others in order; empty where there are no
/// lists.
pub open spec fn intersect_spec(lists: Seq<Seq<OwnedGameM>>) -> Seq<OwnedGameM> {
    if lists.len() == 0 {
        Seq::<OwnedGameM>::empty()
    } else {
        fold_common(lists.last(), lists.drop_last())
    }
}

/// The intersection across all fetched lists. Fails with
/// `NoListsAvailable` exactly when no list was fetched, and with
/// `EmptyIntersection` exactly when the intersection has no members.
#[verifier::loop_isolation(false)]
pub fn intersect_all(mut lists: Vec<OwnedGames>) -> (r: Result<OwnedGames, CommonGamesError>)
    requires
        forall|i: int| 0 <= i < lists@.len() ==> (#[trigger] lists@[i]).wf(),
    ensures
        ({
            let views = old_views(lists@);
            match r {
                Ok(g) => lists@.len() > 0 && g.model() == intersect_spec(views) && g.model().len()
                    > 0 && g.wf(),
                Err(e) => match e {
                    CommonGamesError::NoListsAvailable => lists@.len() == 0,
                    CommonGamesError::EmptyIntersection => lists@.len() > 0 && intersect_spec(
                        views,
                    ).len() == 0,
                    _ => false,
                },
            }
        }),
{
    let ghost views = old_views(lists@);
    let last = match lists.pop() {
        Some(l) => l,
        None => {
            return Err(CommonGamesError::NoListsAvailable);
        },
    };
    proof {
        assert(views.last() == last.model());
        assert(views.drop_last() =~= old_views(lists@));
    }
    let ghost rest = old_views(lists@);
    proof {
        assert(rest.subrange(0, rest.len() as int) =~= rest);
    }
    let mut acc = last;
    let n = lists.len();
    let mut i: usize = 0;
    while i < n
        invariant
            0 <= i <= n,
            acc.wf(),
            fold_common(acc.model(), rest.subrange(i as int, n as int)) == intersect_spec(views),
        decreases n - i,
    {
        proof {
            let s = rest.subrange(i as int, n as int);
            assert(s[0] == rest[i as int]);
            assert(s.drop_first() =~= rest.subrange(i + 1, n as int));
            assert(rest[i as int] == lists@[i as int].model());
        }
        let next = find_common(&acc, &lists[i]);
        acc = next;
        i = i + 1;
    }
    proof {
        assert(rest.subrange(n as int, n as int) =~= Seq::<Seq<OwnedGameM>>::empty());
    }
    if acc.game_count == 0 || acc.games.is_empty() {
        return Err(CommonGamesError::EmptyIntersection);
    }
    Ok(acc)
}

/// The lists' models, in order.
pub open spec fn old_views(lists: Seq<OwnedGames>) -> Seq<Seq<OwnedGameM>> {
    lists.map_values(|l: OwnedGames| l.model())
}

/// A guild member as the dispatch collaborator reports it: optional
/// nickname, primary name, caller identity.
pub struct GuildMember {
    pub nick: Option<String>,
    pub name: String,
    pub id: u64,
}

/// The model of a guild member.
pub ghost struct GuildMemberM {
    pub nick: Option<Seq<char>>,
    pub name: Seq<char>,
    pub id: u64,
}

impl View for GuildMember {
    type V = GuildMemberM;

    open spec fn view(&self) -> GuildMemberM {
        GuildMemberM {
            nick: match self.nick {
                Some(ref n) => Some(n@),
                None => None,
            },
            name: self.name@,
            id: self.id,
        }
    }
}

/// Whether a member answers to `user`: its nickname matches where it has
/// one, or its primary name matches.
pub open spec fn member_matches(m: GuildMemberM, user: Seq<char>) -> bool {
    (match m.nick {
        Some(n) => n == user,
        None => false,
    }) || m.name == user
}

/// The first member index answering to `user`, or the length where none
/// does.
pub open spec fn find_member(members: Seq<GuildMemberM>, user: Seq<char>) -> int
    decreases members.len(),
{
    if members.len() == 0 {
        0
    } else if member_matches(members[0], user) {
        0
    } else {
        1 + find_member(members.drop_first(), user)
    }
}

/// Whether some member answers to `user`.
pub open spec fn some_member_matches(members: Seq<GuildMemberM>, user: Seq<char>) -> bool {
    exists|i: int| 0 <= i < members.len() && member_matches(members[i], user)
}

/// `find_member` finds the first match, and finds one exactly when one
/// exists.
pub proof fn lemma_find_member(members: Seq<GuildMemberM>, user: Seq<char>)
    ensures
        0 <= find_member(members, user) <= members.len(),
        find_member(members, user) < members.len() ==> member_matches(
            members[find_member(members, user)],
            user,
        ),
        forall|j: int| 0 <= j < find_member(members, user) ==> !member_matches(members[j], user),
        (find_member(members, user) < members.len()) == some_member_matches(members, user),
    decreases members.len(),
{
    if members.len() == 0 {
    } else if member_matches(members[0], user) {
    } else {
        let t = members.drop_first();
        lemma_find_member(t, user);
        assert(forall|j: int| 0 <= j < t.len() ==> t[j] == members[j + 1]);
        if some_member_matches(members, user) {
            let w = choose|i: int| 0 <= i < members.len() && member_matches(members[i], user);
            assert(member_matches(t[w - 1], user));
        }
        if some_member_matches(t, user) {
            let w = choose|i: int| 0 <= i < t.len() && member_matches(t[i], user);
            assert(member_matches(members[w + 1], user));
        }
        assert forall|j: int|
            0 <= j < find_member(members, user) implies !member_matches(members[j], user) by {
            if j > 0 {
                assert(members[j] == t[j - 1]);
            }
        }
    }
}

/// The caller ids the requested display names resolve to, in request
/// order; unmatched names are silently dropped.
pub open spec fn resolve_spec(members: Seq<GuildMemberM>, requested: Seq<Seq<char>>) -> Seq<u64>
    decreases requested.len(),
{
    if requested.len() == 0 {
        Seq::<u64>::empty()
    } else {
        resolve_spec(members, requested.drop_last()) + (if find_member(members, requested.last())
            < members.len() {
            seq![members[find_member(members, requested.last())].id]
        } else {
            Seq::<u64>::empty()
        })
    }
}

/// The first member answering to `user`, nickname before primary name
/// within each member, earlier members first.
#[verifier::loop_isolation(false)]
fn find_member_exec(members: &Vec<GuildMember>, user: &str) -> (r: Option<u64>)
    ensures
        ({
            let m = members@.map_values(|x: GuildMember| x@);
            let f = find_member(m, user@);
            match r {
                Some(id) => f < m.len() && id == m[f].id,
                None => f == m.len(),
            }
        }),
{
    let ghost m = members@.map_values(|x: GuildMember| x@);
    proof {
        lemma_find_member(m, user@);
    }
    let n = members.len();
    let mut i: usize = 0;
    while i < n
        invariant
            0 <= i <= n,
            forall|j: int| 0 <= j < i ==> !member_matches(m[j], user@),
        decreases n - i,
    {
        let hit = match &members[i].nick {
            Some(nick) => str_eq(nick.as_str(), user),
            None => false,
        } || str_eq(members[i].name.as_str(), user);
        if hit {
            proof {
                assert(member_matches(m[i as int], user@));
                assert(some_member_matches(m, user@)) by {
                    assert(0 <= i < m.len() && member_matches(m[i as int], user@));
                }
                let f = find_member(m, user@);
                if f < i as int {
                    assert(!member_matches(m[f], user@));
                }
                if f > i as int {
                    assert(!member_matches(m[i as int], user@));
                }
            }
            return Some(members[i].id);
        }
        i = i + 1;
    }
    None
}

/// Resolves the requested display names against the guild's membership,
/// as `resolve_spec` describes: nickname first, then primary name;
/// unmatched names silently dropped; request order kept.
#[verifier::loop_isolation(false)]
pub fn resolve_callers(members: &Vec<GuildMember>, requested: &Vec<String>) -> (r: Vec<u64>)
    ensures
        r@ == resolve_spec(
            members@.map_values(|x: GuildMember| x@),
            requested@.map_values(|s: String| s@),
        ),
{
    let ghost m = members@.map_values(|x: GuildMember| x@);
    let ghost req = requested@.map_values(|s: String| s@);
    let mut r: Vec<u64> = Vec::new();
    let mut i: usize = 0;
    while i < requested.len()
        invariant
            0 <= i <= requested@.len(),
            r@ =~= resolve_spec(m, req.subrange(0, i as int)),
        decreases requested@.len() - i,
    {
        match find_member_exec(members, requested[i].as_str()) {
            Some(id) => {
                r.push(id);
            },
            None => {},
        }
        proof {
            let pre = req.subrange(0, i as int);
            let cur = req.subrange(0, i + 1);
            assert(cur.drop_last() =~= pre);
            assert(cur.last() == req[i as int]);
            assert(r@ =~= resolve_spec(m, cur));
        }
        i = i + 1;
    }
    proof {
        assert(req.subrange(0, req.len() as int) =~= req);
    }
    r
}

/// The external ids to query for a common-games request: the requested
/// names are resolved against the membership (`InsufficientNames` where
/// fewer than two resolve), then each resolved caller's mapping is looked
/// up (`InsufficientMappings` where fewer than two have one).
#[verifier::loop_isolation(false)]
pub fn plan_common_games(
    mappings: &PlayerContainer,
    guild: u64,
    members: &Vec<GuildMember>,
    requested: &Vec<String>,
) -> (r: Result<Vec<u64>, CommonGamesError>)
    requires
        mappings.wf(),
    ensures
        ({
            let users = resolve_spec(
                members@.map_values(|x: GuildMember| x@),
                requested@.map_values(|s: String| s@),
            );
            let found = lookups(mappings.at(guild), users);
            match r {
                Ok(ids) => users.len() >= 2 && found.len() >= 2 && ids@ == found.map_values(
                    |p: PlayerM| p.external,
                ),
                Err(e) => match e {
                    CommonGamesError::InsufficientNames => users.len() < 2,
                    CommonGamesError::InsufficientMappings => users.len() >= 2 && found.len()
                        < 2,
                    _ => false,
                },
            }
        }),
{
    let users = resolve_callers(members, requested);
    if users.len() < 2 {
        return Err(CommonGamesError::InsufficientNames);
    }
    let found = mappings.external_ids_for(guild, &users);
    if found.len() < 2 {
        proof {
            assert(found@.map_values(|t: Player| t@).len() == found@.len());
        }
        return Err(CommonGamesError::InsufficientMappings);
    }
    let ghost fm = found@.map_values(|t: Player| t@);
    let mut ids: Vec<u64> = Vec::new();
    let mut i: usize = 0;
    while i < found.len()
        invariant
            0 <= i <= found@.len(),
            ids@ =~= fm.subrange(0, i as int).map_values(|p: PlayerM| p.external),
        decreases found@.len() - i,
    {
        ids.push(found[i].steam());
        proof {
            assert(ids@ =~= fm.subrange(0, i + 1).map_values(|p: PlayerM| p.external));
        }
        i = i + 1;
    }
    proof {
        assert(fm.subrange(0, fm.len() as int) =~= fm);
    }
    Ok(ids)
}

/// The fixed placeholder shown where a game's name is cached nowhere.
pub open spec fn placeholder_name() -> Seq<char> {
    "** NNF **"@
}

/// The display name of a common game: its cached name, else the catalog
/// cache's name for its id, else the placeholder.
pub open spec fn name_of(g: OwnedGameM, apps: Seq<AppM>) -> Seq<char> {
    match g.name {
        Some(n) => n,
        None => {
            let f = find_app_by_id(apps, g.appid);
            if f < apps.len() {
                apps[f].name
            } else {
                placeholder_name()
            }
        },
    }
}

/// One result line of the common-games report.
pub open spec fn line_of(g: OwnedGameM, apps: Seq<AppM>) -> Seq<char> {
    name_of(g, apps) + " - "@ + url_of(g.appid) + "\r\n"@
}

/// The result lines, one per common game, in order.
pub open spec fn lines_of(games: Seq<OwnedGameM>, apps: Seq<AppM>) -> Seq<Seq<char>> {
    games.map_values(|g: OwnedGameM| line_of(g, apps))
}

/// Formats the result lines of a common-games report, as `lines_of`
/// describes: `<name> - <canonical-url>` per game, name lookups falling
/// back to the catalog cache and then to the placeholder.
#[verifier::loop_isolation(false)]
pub fn build_lines(common: &OwnedGames, apps: &Apps) -> (r: Vec<String>)
    ensures
        r@.map_values(|s: String| s@) == lines_of(common.model(), apps.model()),
{
    let ghost gm = common.model();
    let ghost am = apps.model();
    let mut r: Vec<String> = Vec::new();
    let n = common.games.len();
    let mut i: usize = 0;
    while i < n
        invariant
            0 <= i <= n,
            r@.map_values(|s: String| s@) =~~= lines_of(gm.subrange(0, i as int), am),
        decreases n - i,
    {
        let g = &common.games[i];
        let mut line = match &g.name {
            Some(name) => name.clone(),
            None => match apps.find_by_id(g.appid) {
                Ok(app) => app.name,
                Err(()) => String::from_str("** NNF **"),
            },
        };
        proof {
            lemma_find_app_by_id(am, g@.appid);
            assert(line@ == name_of(gm[i as int], am));
        }
        line.append(" - ");
        let u = app_url(g.appid);
        line.append(u.as_str());
        line.append("\r\n");
        proof {
            assert(line@ == line_of(gm[i as int], am));
        }
        let ghost prev = r@;
        r.push(line);
        proof {
            let next = lines_of(gm.subrange(0, i + 1), am);
            let got = r@.map_values(|s: String| s@);
            assert forall|j: int| 0 <= j < got.len() implies got[j] == next[j] by {
                assert(next[j] == line_of(gm.subrange(0, i + 1)[j], am));
                if j < i {
                    assert(gm.subrange(0, i + 1)[j] == gm[j]);
                    assert(gm.subrange(0, i as int)[j] == gm[j]);
                    assert(r@[j] == prev[j]);
                    assert(got[j] == prev.map_values(|s: String| s@)[j]);
                    assert(got[j] == lines_of(gm.subrange(0, i as int), am)[j]);
                } else {
                    assert(gm.subrange(0, i + 1)[j] == gm[i as int]);
                    assert(got[j] == line@);
                }
            }
            assert(got =~= next);
        }
        i = i + 1;
    }
    proof {
        assert(gm.subrange(0, n as int) =~= gm);
    }
    r
}

/// Greedy packing of lines into chunks: a line joins the open chunk while
/// the sum stays within `limit`, else the open chunk is emitted and the
/// line opens the next one. No line is ever split or dropped; a line
/// longer than `limit` stands alone in its own (oversized) chunk.
pub open spec fn chunks_from(lines: Seq<Seq<char>>, cur: Seq<char>, limit: int) -> Seq<Seq<char>>
    decreases lines.len(),
{
    if lines.len() == 0 {
        if cur.len() == 0 {
            Seq::<Seq<char>>::empty()
        } else {
            seq![cur]
        }
    } else if cur.len() + lines[0].len() <= limit {
        chunks_from(lines.drop_first(), cur + lines[0], limit)
    } else if cur.len() == 0 {
        chunks_from(lines.drop_first(), lines[0], limit)
    } else {
        seq![cur] + chunks_from(lines.drop_first(), lines[0], limit)
    }
}

/// The chunking of the report's lines: greedy, starting with an empty
/// open chunk.
pub open spec fn chunks_of(lines: Seq<Seq<char>>, limit: int) -> Seq<Seq<char>> {
    chunks_from(lines, Seq::<char>::empty(), limit)
}

/// Packs the lines greedily into chunks, as `chunks_of` describes.
#[verifier::rlimit(50)]
#[verifier::loop_isolation(false)]
pub fn chunk_lines(lines: &Vec<String>, limit: usize) -> (r: Vec<String>)
    ensures
        r@.map_values(|s: String| s@) == chunks_of(lines@.map_values(|s: String| s@), limit as int),
{
    let ghost lm = lines@.map_values(|s: String| s@);
    let mut r: Vec<String> = Vec::new();
    let mut cur = String::new();
    proof {
        assert(lm.subrange(0, lm.len() as int) =~= lm);
        assert(Seq::<Seq<char>>::empty().add(chunks_of(lm, limit as int)) =~= chunks_of(
            lm,
            limit as int,
        ));
    }
    let mut i: usize = 0;
    while i < lines.len()
        invariant
            0 <= i <= lines@.len(),
            cur@.len() <= usize::MAX,
            r@.map_values(|s: String| s@).add(
                chunks_from(lm.subrange(i as int, lm.len() as int), cur@, limit as int),
            ) =~~= chunks_of(lm, limit as int),
        decreases lines@.len() - i,
    {
        proof {
            let s = lm.subrange(i as int, lm.len() as int);
            assert(s[0] == lm[i as int]);
            assert(s.drop_first() =~= lm.subrange(i + 1, lm.len() as int));
        }
        let line_len = lines[i].as_str().unicode_len();
        let cur_len = cur.as_str().unicode_len();
        if line_len <= limit && cur_len <= limit - line_len {
            cur.append(lines[i].as_str());
            proof {
                assert(r@.map_values(|s: String| s@).add(
                    chunks_from(lm.subrange(i + 1, lm.len() as int), cur@, limit as int),
                ) =~~= chunks_of(lm, limit as int));
            }
        } else if cur_len == 0 {
            cur = lines[i].clone();
            proof {
                assert(r@.map_values(|s: String| s@).add(
                    chunks_from(lm.subrange(i + 1, lm.len() as int), cur@, limit as int),
                ) =~~= chunks_of(lm, limit as int));
            }
        } else {
            let ghost closed = cur@;
            r.push(cur);
            cur = lines[i].clone();
            proof {
                let s2 = chunks_from(lm.subrange(i + 1, lm.len() as int), cur@, limit as int);
                assert(seq![closed].add(s2) =~~= chunks_from(
                    lm.subrange(i as int, lm.len() as int),
                    closed,
                    limit as int,
                ));
                assert(r@.map_values(|s: String| s@).add(s2) =~~= chunks_of(lm, limit as int));
            }
        }
        i = i + 1;
    }
    proof {
        assert(lm.subrange(lm.len() as int, lm.len() as int) =~= Seq::<Seq<char>>::empty());
    }
    if cur.as_str().unicode_len() > 0 {
        r.push(cur);
    }
    proof {
        if cur@.len() == 0 {
            assert(chunks_from(Seq::<Seq<char>>::empty(), cur@, limit as int)
                == Seq::<Seq<char>>::empty());
        }
        assert(r@.map_values(|s: String| s@) =~~= chunks_of(lm, limit as int));
    }
    r
}

/// Every chunk stays within the limit, provided every line does.
pub proof fn lemma_chunks_bounded(lines: Seq<Seq<char>>, cur: Seq<char>, limit: int)
    requires
        forall|i: int| 0 <= i < lines.len() ==> (#[trigger] lines[i]).len() <= limit,
        cur.len() <= limit,
    ensures
        forall|i: int|
            0 <= i < chunks_from(lines, cur, limit).len() ==> (#[trigger] chunks_from(
                lines,
                cur,
                limit,
            )[i]).len() <= limit,
    decreases lines.len(),
{
    if lines.len() == 0 {
    } else {
        let t = lines.drop_first();
        let whole = chunks_from(lines, cur, limit);
        assert(forall|i: int| 0 <= i < t.len() ==> t[i] == lines[i + 1]);
        assert(lines[0].len() <= limit);
        if cur.len() + lines[0].len() <= limit {
            lemma_chunks_bounded(t, cur + lines[0], limit);
            let rest = chunks_from(t, cur + lines[0], limit);
            assert forall|i: int| 0 <= i < whole.len() implies whole[i].len() <= limit by {
                assert(whole[i] == rest[i]);
            }
        } else if cur.len() == 0 {
            lemma_chunks_bounded(t, lines[0], limit);
            let rest = chunks_from(t, lines[0], limit);
            assert forall|i: int| 0 <= i < whole.len() implies whole[i].len() <= limit by {
                assert(whole[i] == rest[i]);
            }
        } else {
            lemma_chunks_bounded(t, lines[0], limit);
            let rest = chunks_from(t, lines[0], limit);
            assert(whole == seq![cur] + rest);
            assert forall|i: int| 0 <= i < whole.len() implies whole[i].len() <= limit by {
                if i == 0 {
                    assert(whole[i] == cur);
                } else {
                    assert(whole[i] == rest[i - 1]);
                }
            }
        }
    }
}

/// Chunking splits nothing and loses nothing: the chunks concatenate back
/// to the open chunk followed by every line, in order.
pub proof fn lemma_chunks_concat(lines: Seq<Seq<char>>, cur: Seq<char>, limit: int)
    ensures
        chunks_from(lines, cur, limit).flatten() == cur + lines.flatten(),
    decreases lines.len(),
{
    if lines.len() == 0 {
        if cur.len() == 0 {
            assert(chunks_from(lines, cur, limit).flatten() =~= cur + lines.flatten());
        } else {
            let c = chunks_from(lines, cur, limit);
            assert(c == seq![cur]);
            assert(c.flatten() =~= cur + lines.flatten()) by {
                assert(c.drop_first() =~= Seq::<Seq<char>>::empty());
                assert(c.flatten() == c.first() + c.drop_first().flatten());
            }
        }
    } else {
        let t = lines.drop_first();
        assert(lines.flatten() == lines[0] + t.flatten());
        if cur.len() + lines[0].len() <= limit {
            lemma_chunks_concat(t, cur + lines[0], limit);
            assert((cur + lines[0]) + t.flatten() =~= cur + lines.flatten());
        } else if cur.len() == 0 {
            lemma_chunks_concat(t, lines[0], limit);
            assert(lines[0] + t.flatten() =~= cur + lines.flatten());
        } else {
            lemma_chunks_concat(t, lines[0], limit);
            let rest = chunks_from(t, lines[0], limit);
            let whole = chunks_from(lines, cur, limit);
            assert(whole == seq![cur] + rest);
            assert(whole.flatten() == whole.first() + whole.drop_first().flatten());
            assert(whole.drop_first() =~= rest);
            assert(whole.first() == cur);
            assert(cur + (lines[0] + t.flatten()) =~= cur + lines.flatten());
        }
    }
}

/// Where the lines together exceed the limit, the report needs at least
/// two chunks: one chunk cannot hold them, and none is dropped.
pub proof fn lemma_chunks_split(lines: Seq<Seq<char>>, limit: int)
    requires
        forall|i: int| 0 <= i < lines.len() ==> (#[trigger] lines[i]).len() <= limit,
        lines.flatten().len() > limit,
        limit >= 0,
    ensures
        chunks_of(lines, limit).len() >= 2,
{
    let c = chunks_of(lines, limit);
    lemma_chunks_bounded(lines, Seq::<char>::empty(), limit);
    lemma_chunks_concat(lines, Seq::<char>::empty(), limit);
    assert(c.flatten() =~= lines.flatten());
    if c.len() == 0 {
        assert(c.flatten().len() == 0);
    } else if c.len() == 1 {
        assert(c.flatten() == c.first() + c.drop_first().flatten());
        assert(c.drop_first() =~= Seq::<Seq<char>>::empty());
        assert(c.flatten().len() <= limit);
    }
}

} // verus!
