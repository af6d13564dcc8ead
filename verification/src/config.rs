use vstd::prelude::*;
use vstd::std_specs::cmp::PartialEqSpec;
use vstd::string::StringExecFns;
use crate::crypto::{decrypt, decrypt_spec, encrypt};
use crate::errors::StoreError;
use crate::secret_store::{get_or_create_key, stored_key, SecretStore};

verus! {

/// A cached project: its slug and the encrypted blob (`nonce ++ ciphertext`)
/// holding its display name.
#[derive(Clone, Debug)]
pub struct EncryptedProject {
    pub name: Vec<u8>,
    pub slug: String,
}

/// An organization: its local name (the lookup key), its remote slug, and
/// the cached projects keyed by project slug.
///
/// No token is held here: tokens live in the secret store under an entry
/// derived from the organization's local name, so the serialized document
/// never contains one.
#[derive(Clone, Debug)]
pub struct Organization {
    pub name: String,
    pub slug: String,
    pub projects: Vec<EncryptedProject>,
}

/// The whole configuration document: the organizations, keyed by local name.
#[derive(Debug)]
pub struct Config {
    pub organizations: Vec<Organization>,
}

/// What an organization is mathematically: its names and the map from
/// project slug to encrypted blob.
pub ghost struct OrgView {
    pub name: Seq<char>,
    pub slug: Seq<char>,
    pub projects: Map<Seq<char>, Seq<u8>>,
}

/// The map a sequence of cached projects denotes; a later entry with the
/// same slug wins.
pub open spec fn projects_map(ps: Seq<EncryptedProject>) -> Map<Seq<char>, Seq<u8>>
    decreases ps.len(),
{
    if ps.len() == 0 {
        Map::empty()
    } else {
        projects_map(ps.drop_last()).insert(ps.last().slug@, ps.last().name@)
    }
}

/// The map a sequence of organizations denotes; a later entry with the same
/// name wins.
pub open spec fn orgs_map(os: Seq<Organization>) -> Map<Seq<char>, OrgView>
    decreases os.len(),
{
    if os.len() == 0 {
        Map::empty()
    } else {
        orgs_map(os.drop_last()).insert(os.last().name@, os.last()@)
    }
}

impl View for Organization {
    type V = OrgView;

    open spec fn view(&self) -> OrgView {
        OrgView { name: self.name@, slug: self.slug@, projects: projects_map(self.projects@) }
    }
}

impl View for Config {
    type V = Map<Seq<char>, OrgView>;

    open spec fn view(&self) -> Map<Seq<char>, OrgView> {
        orgs_map(self.organizations@)
    }
}

/// The view of a just-added organization: empty project cache, no token.
pub open spec fn fresh_org_view(name: Seq<char>, slug: Seq<char>) -> OrgView {
    OrgView { name, slug, projects: Map::empty() }
}

pub open spec fn project_slugs_unique(ps: Seq<EncryptedProject>) -> bool {
    forall|i: int, j: int| 0 <= i < j < ps.len() ==> ps[i].slug@ != ps[j].slug@
}

pub open spec fn org_names_unique(os: Seq<Organization>) -> bool {
    forall|i: int, j: int| 0 <= i < j < os.len() ==> os[i].name@ != os[j].name@
}

impl Organization {
    /// Well-formed: project slugs are unique.
    pub open spec fn wf(self) -> bool {
        project_slugs_unique(self.projects@)
    }
}

impl Config {
    /// Well-formed: organization names are unique and each organization is
    /// well-formed.
    pub open spec fn wf(self) -> bool {
        &&& org_names_unique(self.organizations@)
        &&& forall|i: int|
            0 <= i < self.organizations@.len() ==> (#[trigger] self.organizations@[i]).wf()
    }
}

impl PartialEq for EncryptedProject {
    fn eq(&self, other: &Self) -> (r: bool) {
        let names_eq = self.name == other.name;
        proof {
            assert(names_eq == (self.name@ =~= other.name@));
        }
        names_eq && self.slug == other.slug
    }
}

impl vstd::std_specs::cmp::PartialEqSpecImpl for EncryptedProject {
    open spec fn obeys_eq_spec() -> bool {
        true
    }

    open spec fn eq_spec(&self, other: &Self) -> bool {
        self.name@ == other.name@ && self.slug@ == other.slug@
    }
}

impl PartialEq for Organization {
    fn eq(&self, other: &Self) -> (r: bool) {
        self.name == other.name && self.slug == other.slug && self.projects == other.projects
    }
}

impl vstd::std_specs::cmp::PartialEqSpecImpl for Organization {
    open spec fn obeys_eq_spec() -> bool {
        true
    }

    open spec fn eq_spec(&self, other: &Self) -> bool {
        &&& self.name@ == other.name@
        &&& self.slug@ == other.slug@
        &&& PartialEqSpec::eq_spec(&self.projects, &other.projects)
    }
}

impl PartialEq for Config {
    fn eq(&self, other: &Self) -> (r: bool) {
        self.organizations == other.organizations
    }
}

impl vstd::std_specs::cmp::PartialEqSpecImpl for Config {
    open spec fn obeys_eq_spec() -> bool {
        true
    }

    open spec fn eq_spec(&self, other: &Self) -> bool {
        PartialEqSpec::eq_spec(&self.organizations, &other.organizations)
    }
}

impl Default for Config {
    /// The fresh empty state of a first run: no organizations.
    fn default() -> (r: Config)
        ensures
            r@ == Map::<Seq<char>, OrgView>::empty(),
            r.wf(),
            r.organizations@.len() == 0,
    {
        Config { organizations: Vec::new() }
    }
}

/// Relies on std's `str` equality: character-for-character comparison.
#[verifier::external_body]
pub(crate) fn str_eq(a: &str, b: &str) -> (r: bool)
    ensures
        r == (a@ == b@),
{
    a == b
}

/// Whichever index of `os` holds the organization named `name`.
pub(crate) proof fn lemma_orgs_map_contains(os: Seq<Organization>, name: Seq<char>)
    ensures
        orgs_map(os).contains_key(name) <==> exists|i: int|
            0 <= i < os.len() && os[i].name@ == name,
    decreases os.len(),
{
    if os.len() > 0 {
        lemma_orgs_map_contains(os.drop_last(), name);
        if orgs_map(os).contains_key(name) {
            if os.last().name@ != name {
                let i = choose|i: int| 0 <= i < os.drop_last().len() && os.drop_last()[i].name@
                    == name;
                assert(os[i].name@ == name);
            }
        }
        if exists|i: int| 0 <= i < os.len() && os[i].name@ == name {
            let i = choose|i: int| 0 <= i < os.len() && os[i].name@ == name;
            if i < os.len() - 1 {
                assert(os.drop_last()[i].name@ == name);
            }
        }
    }
}

proof fn lemma_orgs_map_get(os: Seq<Organization>, i: int)
    requires
        org_names_unique(os),
        0 <= i < os.len(),
    ensures
        orgs_map(os).contains_key(os[i].name@),
        orgs_map(os)[os[i].name@] == os[i]@,
    decreases os.len(),
{
    if i == os.len() - 1 {
        lemma_orgs_map_contains(os, os[i].name@);
    } else {
        assert(org_names_unique(os.drop_last()));
        assert(os.drop_last()[i] == os[i]);
        lemma_orgs_map_get(os.drop_last(), i);
        assert(os[i].name@ != os.last().name@);
    }
}

proof fn lemma_orgs_map_update(os: Seq<Organization>, i: int, o: Organization)
    requires
        org_names_unique(os),
        0 <= i < os.len(),
        o.name@ == os[i].name@,
    ensures
        orgs_map(os.update(i, o)) =~= orgs_map(os).insert(o.name@, o@),
    decreases os.len(),
{
    let n = os.len() as int;
    if i == n - 1 {
        assert(os.update(i, o).drop_last() =~= os.drop_last());
        assert(os.update(i, o).last() == o);
    } else {
        assert(org_names_unique(os.drop_last()));
        assert(os.drop_last()[i] == os[i]);
        lemma_orgs_map_update(os.drop_last(), i, o);
        assert(os.update(i, o).drop_last() =~= os.drop_last().update(i, o));
        assert(os.update(i, o).last() == os.last());
        assert(os[i].name@ != os.last().name@);
    }
}

impl Config {
    fn find_org_index(&self, name: &str) -> (r: Option<usize>)
        ensures
            match r {
                Some(i) => i < self.organizations@.len() && self.organizations@[i as int].name@
                    == name@,
                None => forall|i: int|
                    0 <= i < self.organizations@.len() ==> (
                    #[trigger] self.organizations@[i]).name@ != name@,
            },
    {
        let mut i: usize = 0;
        while i < self.organizations.len()
            invariant
                i <= self.organizations@.len(),
                forall|j: int|
                    0 <= j < i ==> (#[trigger] self.organizations@[j]).name@ != name@,
            decreases self.organizations@.len() - i,
        {
            if str_eq(self.organizations[i].name.as_str(), name) {
                return Some(i);
            }
            i = i + 1;
        }
        None
    }

    /// Insert an organization with no token set and an empty project cache,
    /// overwriting any existing entry with the same name: an idempotent
    /// upsert where the last write wins.
    pub fn add_organization(&mut self, name: String, slug: String)
        requires
            old(self).wf(),
        ensures
            final(self).wf(),
            final(self)@ == old(self)@.insert(name@, fresh_org_view(name@, slug@)),
    {
        let ghost name_view = name@;
        let org = Organization { name, slug, projects: Vec::new() };
        match self.find_org_index(org.name.as_str()) {
            Some(i) => {
                proof {
                    lemma_orgs_map_update(self.organizations@, i as int, org);
                }
                self.organizations[i] = org;
            },
            None => {
                proof {
                    assert(self.organizations@.push(org).drop_last() =~= self.organizations@);
                    assert(org_names_unique(self.organizations@.push(org)));
                }
                self.organizations.push(org);
            },
        }
    }

    /// Look an organization up by exact local name; absence is a normal
    /// "not found" result.
    pub fn get_organization(&self, name: &str) -> (r: Option<&Organization>)
        requires
            self.wf(),
        ensures
            match r {
                Some(o) => self@.contains_key(name@) && o@ == self@[name@] && o.wf(),
                None => !self@.contains_key(name@),
            },
    {
        proof {
            lemma_orgs_map_contains(self.organizations@, name@);
        }
        match self.find_org_index(name) {
            Some(i) => {
                proof {
                    lemma_orgs_map_get(self.organizations@, i as int);
                }
                Some(&self.organizations[i])
            },
            None => None,
        }
    }
}

/// Upsert law: adding an organization twice under one name leaves exactly
/// one entry for that name, carrying the slug of the second addition.
pub proof fn lemma_add_organization_upsert(
    m: Map<Seq<char>, OrgView>,
    name: Seq<char>,
    slug1: Seq<char>,
    slug2: Seq<char>,
)
    ensures
        ({
            let twice = m.insert(name, fresh_org_view(name, slug1)).insert(
                name,
                fresh_org_view(name, slug2),
            );
            &&& twice == m.insert(name, fresh_org_view(name, slug2))
            &&& twice[name].slug == slug2
            &&& twice.dom() == m.dom().insert(name)
        }),
{
    let twice = m.insert(name, fresh_org_view(name, slug1)).insert(
        name,
        fresh_org_view(name, slug2),
    );
    assert(twice =~= m.insert(name, fresh_org_view(name, slug2)));
    assert(twice.dom() =~= m.dom().insert(name));
}


pub(crate) proof fn lemma_projects_map_contains(ps: Seq<EncryptedProject>, slug: Seq<char>)
    ensures
        projects_map(ps).contains_key(slug) <==> exists|i: int|
            0 <= i < ps.len() && (#[trigger] ps[i]).slug@ == slug,
    decreases ps.len(),
{
    if ps.len() > 0 {
        lemma_projects_map_contains(ps.drop_last(), slug);
        if projects_map(ps).contains_key(slug) {
            if ps.last().slug@ != slug {
                let i = choose|i: int|
                    0 <= i < ps.drop_last().len() && (#[trigger] ps.drop_last()[i]).slug@ == slug;
                assert(ps[i].slug@ == slug);
            }
        }
        if exists|i: int| 0 <= i < ps.len() && (#[trigger] ps[i]).slug@ == slug {
            let i = choose|i: int| 0 <= i < ps.len() && (#[trigger] ps[i]).slug@ == slug;
            if i < ps.len() - 1 {
                assert(ps.drop_last()[i].slug@ == slug);
            }
        }
    }
}

proof fn lemma_projects_map_get(ps: Seq<EncryptedProject>, i: int)
    requires
        project_slugs_unique(ps),
        0 <= i < ps.len(),
    ensures
        projects_map(ps).contains_key(ps[i].slug@),
        projects_map(ps)[ps[i].slug@] == ps[i].name@,
    decreases ps.len(),
{
    if i == ps.len() - 1 {
    } else {
        assert(project_slugs_unique(ps.drop_last()));
        assert(ps.drop_last()[i] == ps[i]);
        lemma_projects_map_get(ps.drop_last(), i);
        assert(ps[i].slug@ != ps.last().slug@);
    }
}

proof fn lemma_projects_map_update(ps: Seq<EncryptedProject>, i: int, e: EncryptedProject)
    requires
        project_slugs_unique(ps),
        0 <= i < ps.len(),
        e.slug@ == ps[i].slug@,
    ensures
        projects_map(ps.update(i, e)) =~= projects_map(ps).insert(e.slug@, e.name@),
    decreases ps.len(),
{
    let n = ps.len() as int;
    if i == n - 1 {
        assert(ps.update(i, e).drop_last() =~= ps.drop_last());
        assert(ps.update(i, e).last() == e);
    } else {
        assert(project_slugs_unique(ps.drop_last()));
        assert(ps.drop_last()[i] == ps[i]);
        lemma_projects_map_update(ps.drop_last(), i, e);
        assert(ps.update(i, e).drop_last() =~= ps.drop_last().update(i, e));
        assert(ps.update(i, e).last() == ps.last());
        assert(ps[i].slug@ != ps.last().slug@);
    }
}

/// The secret-store service under which an organization's token lives,
/// derived deterministically from its local name.
pub open spec fn token_service_view(name: Seq<char>) -> Seq<char> {
    "sex-cli-"@ + name
}

/// The fixed account under which an organization's token lives.
pub open spec fn token_account() -> Seq<char> {
    "auth-token"@
}

/// An organization's view with one more cached project.
pub open spec fn org_with_project(o: OrgView, slug: Seq<char>, blob: Seq<u8>) -> OrgView {
    OrgView { projects: o.projects.insert(slug, blob), ..o }
}

/// Whether a decryption outcome under key `k` of blob `blob` is reported as
/// `res`: the name on success, the failure wrapped as a crypto error.
pub open spec fn project_result_matches(
    k: Seq<u8>,
    blob: Seq<u8>,
    res: Result<String, StoreError>,
) -> bool {
    match decrypt_spec(k, blob) {
        Ok(name) => res is Ok && res->Ok_0@ == name,
        Err(e) => res == Err::<String, StoreError>(StoreError::Crypto(e)),
    }
}

impl Organization {
    /// A fresh organization: no token set, empty project cache. The token's
    /// secret-store entry is derived from `name` at each use, never stored.
    pub fn new(name: String, slug: String) -> (r: Organization)
        ensures
            r@ == fresh_org_view(name@, slug@),
            r.wf(),
            r.name@ == name@,
            r.slug@ == slug@,
    {
        let r = Organization { name, slug, projects: Vec::new() };
        proof {
            assert(r@.projects =~= Map::<Seq<char>, Seq<u8>>::empty());
        }
        r
    }

    fn token_service(&self) -> (r: String)
        ensures
            r@ == token_service_view(self.name@),
    {
        let mut s = String::from_str("sex-cli-");
        s.append(self.name.as_str());
        s
    }

    /// Read this organization's bearer token from the secret store; absence
    /// means "not logged in" and is a normal `None`, not an error.
    pub fn get_auth_token(&self, store: &SecretStore) -> (r: Result<Option<String>, StoreError>)
        requires
            store.wf(),
        ensures
            store.mem_view() matches Some(m) ==> {
                &&& r is Ok
                &&& (r->Ok_0 is Some <==> m.contains_key(
                    (token_service_view(self.name@), token_account()),
                ))
                &&& r->Ok_0 matches Some(t) ==> t@ == m[
                    (token_service_view(self.name@), token_account())
                ]
            },
    {
        let service = self.token_service();
        store.get(service.as_str(), "auth-token")
    }

    /// Write this organization's bearer token to its dedicated secret-store
    /// entry, so the same organization maps to the same entry across runs.
    pub fn set_auth_token(&self, store: &mut SecretStore, token: String) -> (r: Result<
        (),
        StoreError,
    >)
        requires
            old(store).wf(),
        ensures
            final(store).wf(),
            old(store).mem_view() matches Some(m) ==> {
                &&& r is Ok
                &&& final(store).mem_view() == Some(
                    m.insert((token_service_view(self.name@), token_account()), token@),
                )
            },
            old(store).mem_view() is None ==> *final(store) == *old(store),
    {
        let service = self.token_service();
        store.set(service.as_str(), "auth-token", token.as_str())
    }

    fn find_project_index(&self, slug: &str) -> (r: Option<usize>)
        ensures
            match r {
                Some(i) => i < self.projects@.len() && self.projects@[i as int].slug@ == slug@,
                None => forall|i: int|
                    0 <= i < self.projects@.len() ==> (#[trigger] self.projects@[i]).slug@
                    != slug@,
            },
    {
        let mut i: usize = 0;
        while i < self.projects.len()
            invariant
                i <= self.projects@.len(),
                forall|j: int| 0 <= j < i ==> (#[trigger] self.projects@[j]).slug@ != slug@,
            decreases self.projects@.len() - i,
        {
            if str_eq(self.projects[i].slug.as_str(), slug) {
                return Some(i);
            }
            i = i + 1;
        }
        None
    }

    /// Whether a project with this slug is cached.
    pub fn has_project(&self, slug: &str) -> (r: bool)
        ensures
            r == self@.projects.contains_key(slug@),
    {
        proof {
            lemma_projects_map_contains(self.projects@, slug@);
        }
        match self.find_project_index(slug) {
            Some(_) => true,
            None => false,
        }
    }

    /// Insert or overwrite the cached entry for `slug` with blob `blob`.
    fn upsert_project(&mut self, slug: String, blob: Vec<u8>)
        requires
            old(self).wf(),
        ensures
            final(self).wf(),
            final(self)@ == org_with_project(old(self)@, slug@, blob@),
            final(self).name@ == old(self).name@,
            final(self).slug@ == old(self).slug@,
    {
        let entry = EncryptedProject { name: blob, slug };
        match self.find_project_index(entry.slug.as_str()) {
            Some(i) => {
                proof {
                    lemma_projects_map_update(self.projects@, i as int, entry);
                }
                self.projects[i] = entry;
            },
            None => {
                proof {
                    assert(self.projects@.push(entry).drop_last() =~= self.projects@);
                    assert(project_slugs_unique(self.projects@.push(entry)));
                }
                self.projects.push(entry);
            },
        }
    }

    /// Record a project under `slug` with an empty blob, overwriting any
    /// previous entry.
    pub fn add_project(&mut self, project_slug: String)
        requires
            old(self).wf(),
        ensures
            final(self).wf(),
            final(self)@ == org_with_project(old(self)@, project_slug@, Seq::<u8>::empty()),
            final(self).name@ == old(self).name@,
            final(self).slug@ == old(self).slug@,
    {
        let blob: Vec<u8> = Vec::new();
        proof {
            assert(blob@ =~= Seq::<u8>::empty());
        }
        self.upsert_project(project_slug, blob);
    }

    /// Decrypt the cached display name of the project under `slug`: `None`
    /// where no such project is cached, and otherwise the decrypted name or
    /// the propagated failure, never partial plaintext.
    pub fn get_project(&self, store: &mut SecretStore, slug: &str) -> (r: Option<Result<
        String,
        StoreError,
    >>)
        requires
            old(store).wf(),
            self.wf(),
        ensures
            final(store).wf(),
            r is None <==> !self@.projects.contains_key(slug@),
            (old(store).mem_view() is Some && stored_key(old(store).mem_view()->Some_0)
                is Some) ==> ({
                let k = stored_key(old(store).mem_view()->Some_0)->Some_0;
                &&& *final(store) == *old(store)
                &&& r matches Some(res) ==> project_result_matches(
                    k,
                    self@.projects[slug@],
                    res,
                )
            }),
    {
        proof {
            lemma_projects_map_contains(self.projects@, slug@);
        }
        match self.find_project_index(slug) {
            None => None,
            Some(i) => {
                proof {
                    lemma_projects_map_get(self.projects@, i as int);
                }
                let key = match get_or_create_key(store) {
                    Ok(key) => key,
                    Err(e) => {
                        return Some(Err(e));
                    },
                };
                match decrypt(&key, self.projects[i].name.as_slice()) {
                    Ok(name) => Some(Ok(name)),
                    Err(e) => Some(Err(StoreError::Crypto(e))),
                }
            },
        }
    }
}

impl Config {
    /// Look an organization up by exact local name for mutation; absence is
    /// a normal "not found" result.
    pub fn get_organization_mut(&mut self, name: &str) -> (r: Option<&mut Organization>)
        requires
            old(self).wf(),
        ensures
            r matches Some(o) ==> old(self)@.contains_key(name@) && (*o)@ == old(self)@[name@]
                && (*o).wf(),
            r is None ==> !old(self)@.contains_key(name@) && *final(self) == *old(self),
    {
        proof {
            lemma_orgs_map_contains(self.organizations@, name@);
        }
        match self.find_org_index(name) {
            Some(i) => {
                proof {
                    lemma_orgs_map_get(self.organizations@, i as int);
                }
                Some(&mut self.organizations[i])
            },
            None => None,
        }
    }

    /// Organizations that match a project slug: those that have it cached,
    /// each marked `true`; where none has it cached, every organization,
    /// each marked `false`, for a live check by the caller.
    pub fn find_project(&self, project_slug: &str) -> (r: Vec<(&Organization, bool)>)
        ensures
            ({
                let orgs = self.organizations@;
                let cached = orgs.filter(
                    |o: Organization| projects_map(o.projects@).contains_key(project_slug@),
                );
                if cached.len() > 0 {
                    &&& r@.len() == cached.len()
                    &&& forall|k: int|
                        0 <= k < r@.len() ==> *(#[trigger] r@[k]).0 == cached[k] && r@[k].1
                            == true
                } else {
                    &&& r@.len() == orgs.len()
                    &&& forall|k: int|
                        0 <= k < r@.len() ==> *(#[trigger] r@[k]).0 == orgs[k] && r@[k].1 == false
                }
            }),
    {
        let ghost orgs = self.organizations@;
        let ghost pred = |o: Organization| projects_map(o.projects@).contains_key(project_slug@);
        let mut matches: Vec<(&Organization, bool)> = Vec::new();

        let mut i: usize = 0;
        while i < self.organizations.len()
            invariant
                orgs == self.organizations@,
                i <= orgs.len(),
                matches@.len() == orgs.take(i as int).filter(pred).len(),
                forall|k: int|
                    0 <= k < matches@.len() ==> *(#[trigger] matches@[k]).0 == orgs.take(
                        i as int,
                    ).filter(pred)[k] && matches@[k].1 == true,
                pred == (|o: Organization| projects_map(o.projects@).contains_key(project_slug@)),
            decreases orgs.len() - i,
        {
            proof {
                assert(orgs.take(i + 1 as int).drop_last() =~= orgs.take(i as int));
                reveal_with_fuel(Seq::filter, 2);
            }
            if self.organizations[i].has_project(project_slug) {
                matches.push((&self.organizations[i], true));
            }
            i = i + 1;
        }
        proof {
            assert(orgs.take(orgs.len() as int) =~= orgs);
        }

        if matches.len() == 0 {
            let ghost cached = orgs.filter(pred);
            let mut all: Vec<(&Organization, bool)> = Vec::new();
            let mut i: usize = 0;
            while i < self.organizations.len()
                invariant
                    orgs == self.organizations@,
                    i <= orgs.len(),
                    all@.len() == i,
                    forall|k: int|
                        0 <= k < i ==> *(#[trigger] all@[k]).0 == orgs[k] && all@[k].1 == false,
                decreases orgs.len() - i,
            {
                all.push((&self.organizations[i], false));
                i = i + 1;
            }
            all
        } else {
            matches
        }
    }

    /// Encrypt a project's display name and cache it under the organization,
    /// overwriting any previous entry for that slug. Where no organization
    /// of that name exists this fails with `NotFound` (rather than silently
    /// doing nothing), so a misspelt organization cannot be mistaken for a
    /// successful write; the caller persists the document after success.
    pub fn cache_project(
        &mut self,
        store: &mut SecretStore,
        org_name: &str,
        project_slug: String,
        project_name: String,
    ) -> (r: Result<(), StoreError>)
        requires
            old(self).wf(),
            old(store).wf(),
        ensures
            final(self).wf(),
            final(store).wf(),
            r == Err::<(), StoreError>(StoreError::NotFound) <==> !old(self)@.contains_key(
                org_name@,
            ),
            r is Err ==> *final(self) == *old(self),
            r is Ok ==> exists|blob: Seq<u8>|
                final(self)@ == old(self)@.insert(
                    org_name@,
                    org_with_project(old(self)@[org_name@], project_slug@, blob),
                ),
            (old(store).mem_view() is Some && stored_key(old(store).mem_view()->Some_0) is Some
                && old(self)@.contains_key(org_name@)) ==> ({
                let k = stored_key(old(store).mem_view()->Some_0)->Some_0;
                &&& r is Ok
                &&& *final(store) == *old(store)
                &&& exists|blob: Seq<u8>|
                    {
                        &&& decrypt_spec(k, blob) == Ok::<Seq<char>, crate::errors::CryptoError>(
                            project_name@,
                        )
                        &&& final(self)@ == old(self)@.insert(
                            org_name@,
                            org_with_project(old(self)@[org_name@], project_slug@, blob),
                        )
                    }
            }),
    {
        proof {
            lemma_orgs_map_contains(self.organizations@, org_name@);
        }
        let i = match self.find_org_index(org_name) {
            Some(i) => i,
            None => {
                return Err(StoreError::NotFound);
            },
        };
        proof {
            lemma_orgs_map_get(self.organizations@, i as int);
        }
        let key = match get_or_create_key(store) {
            Ok(key) => key,
            Err(e) => {
                return Err(e);
            },
        };
        let blob = encrypt(&key, project_name.as_str());
        let ghost blob_view = blob@;
        let ghost old_orgs = self.organizations@;
        let org = &mut self.organizations[i];
        org.upsert_project(project_slug, blob);
        proof {
            let new_org = self.organizations@[i as int];
            assert(self.organizations@ == old_orgs.update(i as int, new_org));
            lemma_orgs_map_update(old_orgs, i as int, new_org);
            assert(new_org@ == org_with_project(
                orgs_map(old_orgs)[org_name@],
                project_slug@,
                blob_view,
            ));
            assert(old(self)@ == orgs_map(old_orgs));
            assert(orgs_map(self.organizations@) == old(self)@.insert(
                org_name@,
                org_with_project(old(self)@[org_name@], project_slug@, blob_view),
            ));
        }
        Ok(())
    }
}


fn str_to_chars(s: &str) -> (r: Vec<char>)
    ensures
        r@ == s@,
{
    let n = s.unicode_len();
    let mut v: Vec<char> = Vec::new();
    let mut k: usize = 0;
    while k < n
        invariant
            n == s@.len(),
            k <= n,
            v@ == s@.take(k as int),
        decreases n - k,
    {
        v.push(s.get_char(k));
        proof {
            assert(v@ =~= s@.take(k + 1 as int));
        }
        k = k + 1;
    }
    proof {
        assert(s@.take(n as int) =~= s@);
    }
    v
}

impl Config {
    /// Serialize the document to its pretty-printed JSON text; the caller
    /// writes it to disk, overwriting any previous file.
    /// Loading the saved text yields this document again, blobs included:
    /// the save/load round trip is the identity and no re-encryption occurs
    /// on reload.
    pub fn save(&self) -> (r: String)
        requires
            self.wf(),
        ensures
            r@ == crate::json::render_config_spec(self.organizations@),
            crate::json::parse_config_spec(r@) == Some(self@),
    {
        let r = crate::json::render_config(self);
        proof {
            crate::json::lemma_parse_render_config(self.organizations@);
        }
        r
    }

    /// Build the document from the config file's text: a missing file
    /// (`None`) is a fresh empty state, not an error; text that is not a
    /// well-formed document fails with `Parse`.
    pub fn load(content: Option<&str>) -> (r: Result<Config, StoreError>)
        ensures
            content is None ==> r is Ok && r->Ok_0@ == Map::<Seq<char>, OrgView>::empty()
                && r->Ok_0.wf() && r->Ok_0.organizations@.len() == 0,
            content matches Some(s) ==> {
                &&& (r is Ok <==> crate::json::parse_config_spec(s@) is Some)
                &&& (r matches Ok(c) ==> crate::json::parse_config_spec(s@) == Some(c@)
                    && c.wf())
                &&& (r is Err ==> r->Err_0 == StoreError::Parse)
            },
    {
        match content {
            None => Ok(Config::default()),
            Some(s) => {
                let chars = str_to_chars(s);
                match crate::json::parse_config(&chars) {
                    Some(c) => Ok(c),
                    None => Err(StoreError::Parse),
                }
            },
        }
    }
}

} // verus!
