//! The in-memory game-catalog cache: canonical game records, looked up by
//! catalog id or by exact name. The external catalog service fills the
//! cache; the lookups themselves are plain list searches.

use vstd::prelude::*;
use crate::text::{dec_rep, str_eq, write_dec};

verus! {

/// The model of a catalog record: its id and its display name.
pub ghost struct AppM {
    pub id: u32,
    pub name: Seq<char>,
}

/// A canonical game record of the catalog.
pub struct App {
    pub id: u32,
    pub name: String,
}

impl View for App {
    type V = AppM;

    open spec fn view(&self) -> AppM {
        AppM { id: self.id, name: self.name@ }
    }
}

/// The canonical store page for catalog id `id`.
pub open spec fn url_of(id: u32) -> Seq<char> {
    "https://store.steampowered.com/app/"@ + dec_rep(id as nat) + "/"@
}

/// The canonical store page for catalog id `id`, as `url_of` describes.
pub fn app_url(id: u32) -> (r: String)
    ensures
        r@ == url_of(id),
{
    let mut r = String::from_str("https://store.steampowered.com/app/");
    write_dec(id as u64, &mut r);
    r.append("/");
    r
}

impl App {
    /// The canonical URL of this record's store page.
    pub fn url(&self) -> (r: String)
        ensures
            r@ == url_of(self.id),
    {
        app_url(self.id)
    }

    /// A copy of this record.
    pub fn duplicate(&self) -> (r: App)
        ensures
            r@ == self@,
    {
        App { id: self.id, name: self.name.clone() }
    }
}

/// Whether some record has catalog id `id`.
pub open spec fn has_app_id(apps: Seq<AppM>, id: u32) -> bool {
    exists|i: int| 0 <= i < apps.len() && apps[i].id == id
}

/// The first index whose record has catalog id `id`, or the length where
/// none does.
pub open spec fn find_app_by_id(apps: Seq<AppM>, id: u32) -> int
    decreases apps.len(),
{
    if apps.len() == 0 {
        0
    } else if apps[0].id == id {
        0
    } else {
        1 + find_app_by_id(apps.drop_first(), id)
    }
}

/// `find_app_by_id` finds the first match, and finds one exactly when one
/// exists.
pub proof fn lemma_find_app_by_id(apps: Seq<AppM>, id: u32)
    ensures
        0 <= find_app_by_id(apps, id) <= apps.len(),
        find_app_by_id(apps, id) < apps.len() ==> apps[find_app_by_id(apps, id)].id == id,
        forall|j: int| 0 <= j < find_app_by_id(apps, id) ==> apps[j].id != id,
        (find_app_by_id(apps, id) < apps.len()) == has_app_id(apps, id),
    decreases apps.len(),
{
    if apps.len() == 0 {
    } else if apps[0].id == id {
    } else {
        let t = apps.drop_first();
        lemma_find_app_by_id(t, id);
        assert(forall|j: int| 0 <= j < t.len() ==> t[j] == apps[j + 1]);
        if has_app_id(apps, id) {
            let w = choose|i: int| 0 <= i < apps.len() && apps[i].id == id;
            assert(t[w - 1].id == id);
        }
        if has_app_id(t, id) {
            let w = choose|i: int| 0 <= i < t.len() && t[i].id == id;
            assert(apps[w + 1].id == id);
        }
        assert forall|j: int| 0 <= j < find_app_by_id(apps, id) implies apps[j].id != id by {
            if j > 0 {
                assert(apps[j] == t[j - 1]);
            }
        }
    }
}

/// Whether some record has the name `name`.
pub open spec fn has_app_name(apps: Seq<AppM>, name: Seq<char>) -> bool {
    exists|i: int| 0 <= i < apps.len() && apps[i].name == name
}

/// The first index whose record has the name `name`, or the length where
/// none does.
pub open spec fn find_app_by_name(apps: Seq<AppM>, name: Seq<char>) -> int
    decreases apps.len(),
{
    if apps.len() == 0 {
        0
    } else if apps[0].name == name {
        0
    } else {
        1 + find_app_by_name(apps.drop_first(), name)
    }
}

/// `find_app_by_name` finds the first match, and finds one exactly when
/// one exists.
pub proof fn lemma_find_app_by_name(apps: Seq<AppM>, name: Seq<char>)
    ensures
        0 <= find_app_by_name(apps, name) <= apps.len(),
        find_app_by_name(apps, name) < apps.len() ==> apps[find_app_by_name(apps, name)].name
            == name,
        forall|j: int| 0 <= j < find_app_by_name(apps, name) ==> apps[j].name != name,
        (find_app_by_name(apps, name) < apps.len()) == has_app_name(apps, name),
    decreases apps.len(),
{
    if apps.len() == 0 {
    } else if apps[0].name == name {
    } else {
        let t = apps.drop_first();
        lemma_find_app_by_name(t, name);
        assert(forall|j: int| 0 <= j < t.len() ==> t[j] == apps[j + 1]);
        if has_app_name(apps, name) {
            let w = choose|i: int| 0 <= i < apps.len() && apps[i].name == name;
            assert(t[w - 1].name == name);
        }
        if has_app_name(t, name) {
            let w = choose|i: int| 0 <= i < t.len() && t[i].name == name;
            assert(apps[w + 1].name == name);
        }
        assert forall|j: int|
            0 <= j < find_app_by_name(apps, name) implies apps[j].name != name by {
            if j > 0 {
                assert(apps[j] == t[j - 1]);
            }
        }
    }
}

/// The cached catalog: a list of records, filled once at startup.
pub struct Apps(pub Vec<App>);

impl Apps {
    /// A cache over the given records.
    pub fn new(apps: Vec<App>) -> (r: Self)
        ensures
            r.0 == apps,
    {
        Apps(apps)
    }

    /// Whether the cache holds no records.
    pub fn is_empty(&self) -> (r: bool)
        ensures
            r == (self.0@.len() == 0),
    {
        self.0.is_empty()
    }

    /// The records as a list of models.
    pub open spec fn model(&self) -> Seq<AppM> {
        self.0@.map_values(|a: App| a@)
    }

    /// The first record with catalog id `id`, as a copy; fails exactly
    /// when no record has that id.
    #[verifier::loop_isolation(false)]
    pub fn find_by_id(&self, id: u32) -> (r: Result<App, ()>)
        ensures
            ({
                let f = find_app_by_id(self.model(), id);
                match r {
                    Ok(a) => f < self.model().len() && a@ == self.model()[f],
                    Err(()) => f == self.model().len(),
                }
            }),
    {
        proof {
            lemma_find_app_by_id(self.model(), id);
        }
        let n = self.0.len();
        let mut i: usize = 0;
        while i < n
            invariant
                0 <= i <= n,
                forall|j: int| 0 <= j < i ==> self.model()[j].id != id,
            decreases n - i,
        {
            if self.0[i].id == id {
                let a = App { id: self.0[i].id, name: self.0[i].name.clone() };
                proof {
                    let f = find_app_by_id(self.model(), id);
                    assert(self.model()[i as int].id == id);
                    assert(has_app_id(self.model(), id)) by {
                        assert(0 <= i < self.model().len() && self.model()[i as int].id == id);
                    }
                    if f < i as int {
                        assert(self.model()[f].id != id);
                    }
                    if f > i as int {
                        assert(self.model()[i as int].id != id);
                    }
                }
                return Ok(a);
            }
            i = i + 1;
        }
        Err(())
    }

    /// The first record whose name equals `name` exactly, as a copy;
    /// fails exactly when no record has that name.
    #[verifier::loop_isolation(false)]
    pub fn find_by_name(&self, name: &str) -> (r: Result<App, ()>)
        ensures
            ({
                let f = find_app_by_name(self.model(), name@);
                match r {
                    Ok(a) => f < self.model().len() && a@ == self.model()[f],
                    Err(()) => f == self.model().len(),
                }
            }),
    {
        proof {
            lemma_find_app_by_name(self.model(), name@);
        }
        let n = self.0.len();
        let mut i: usize = 0;
        while i < n
            invariant
                0 <= i <= n,
                forall|j: int| 0 <= j < i ==> self.model()[j].name != name@,
            decreases n - i,
        {
            if str_eq(self.0[i].name.as_str(), name) {
                let a = App { id: self.0[i].id, name: self.0[i].name.clone() };
                proof {
                    let f = find_app_by_name(self.model(), name@);
                    assert(self.model()[i as int].name == name@);
                    assert(has_app_name(self.model(), name@)) by {
                        assert(0 <= i < self.model().len() && self.model()[i as int].name
                            == name@);
                    }
                    if f < i as int {
                        assert(self.model()[f].name != name@);
                    }
                    if f > i as int {
                        assert(self.model()[i as int].name != name@);
                    }
                }
                return Ok(a);
            }
            i = i + 1;
        }
        Err(())
    }
}

impl Default for Apps {
    /// An empty cache.
    fn default() -> (r: Self)
        ensures
            r.0@.len() == 0,
    {
        Apps(Vec::new())
    }
}

} // verus!
