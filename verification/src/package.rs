//! Package metadata as the build tool reports it, and the user's overrides of
//! license and origin.

use vstd::prelude::*;
use vstd::string::*;
use crate::origin::{origin_of, source_repository, strip_git};
use crate::text::{copy_text, copy_texts, same_text, text_of, texts_of};

verus! {

/// One package of the build.
#[derive(Clone, Debug, PartialEq, Eq)]
pub struct Package {
    /// The identifier under which the dependency graph knows the package.
    pub id: String,
    pub name: String,
    pub version: String,
    pub authors: Vec<String>,
    /// Where the package was obtained from; `None` for a local package.
    pub source: Option<String>,
    /// The declared license; several may be joined by `/`.
    pub license: Option<String>,
    /// The license file, relative to the manifest's directory.
    pub license_file: Option<String>,
    pub repository: Option<String>,
    pub homepage: Option<String>,
    /// The location of the package's manifest on disk.
    pub manifest_path: String,
    /// The copyright holder, once it has been looked up.
    pub copyright: Option<String>,
}

/// The mathematical content of a `Package`.
pub ghost struct PackageView {
    pub id: Seq<char>,
    pub name: Seq<char>,
    pub version: Seq<char>,
    pub authors: Seq<Seq<char>>,
    pub source: Option<Seq<char>>,
    pub license: Option<Seq<char>>,
    pub license_file: Option<Seq<char>>,
    pub repository: Option<Seq<char>>,
    pub homepage: Option<Seq<char>>,
    pub manifest_path: Seq<char>,
    pub copyright: Option<Seq<char>>,
}

impl View for Package {
    type V = PackageView;

    open spec fn view(&self) -> PackageView {
        PackageView {
            id: self.id@,
            name: self.name@,
            version: self.version@,
            authors: texts_of(self.authors@),
            source: text_of(self.source),
            license: text_of(self.license),
            license_file: text_of(self.license_file),
            repository: text_of(self.repository),
            homepage: text_of(self.homepage),
            manifest_path: self.manifest_path@,
            copyright: text_of(self.copyright),
        }
    }
}

/// Replacement values for a package's license and origin.
#[derive(Clone, Debug, PartialEq, Eq)]
pub struct Override {
    pub license: Option<String>,
    pub origin: Option<String>,
}

/// The mathematical content of an `Override`.
pub ghost struct OverrideView {
    pub license: Option<Seq<char>>,
    pub origin: Option<Seq<char>>,
}

impl View for Override {
    type V = OverrideView;

    open spec fn view(&self) -> OverrideView {
        OverrideView { license: text_of(self.license), origin: text_of(self.origin) }
    }
}

/// A package with an override applied: each value that the override holds
/// replaces the package's own.
pub open spec fn overridden(p: PackageView, o: OverrideView) -> PackageView {
    PackageView {
        license: if o.license is Some { o.license } else { p.license },
        repository: if o.origin is Some { o.origin } else { p.repository },
        ..p
    }
}

impl Override {
    /// Applies the override to `package`.
    pub fn fixup(&self, package: &mut Package)
        ensures
            final(package)@ == overridden(old(package)@, self@),
    {
        if let Some(license) = &self.license {
            package.license = Some(license.clone());
        }
        if let Some(origin) = &self.origin {
            package.repository = Some(origin.clone());
        }
    }
}

/// The first value stored under `key` in a list of entries.
spec fn first_value(entries: Seq<(String, Override)>, key: Seq<char>) -> Option<
    OverrideView,
>
    decreases entries.len(),
{
    if entries.len() == 0 {
        None
    } else if entries[0].0@ == key {
        Some(entries[0].1@)
    } else {
        first_value(entries.drop_first(), key)
    }
}

/// The table of overrides, keyed by `name-version` or by `name`.
#[derive(Clone, Debug, PartialEq, Eq)]
pub struct Overrides {
    entries: Vec<(String, Override)>,
}

impl View for Overrides {
    type V = Map<Seq<char>, OverrideView>;

    closed spec fn view(&self) -> Map<Seq<char>, OverrideView> {
        Map::new(
            |key: Seq<char>| first_value(self.entries@, key) is Some,
            |key: Seq<char>| first_value(self.entries@, key)->0,
        )
    }
}

impl Overrides {
    /// A table without entries.
    pub fn new() -> (r: Overrides)
        ensures
            r@ == Map::<Seq<char>, OverrideView>::empty(),
    {
        Overrides { entries: Vec::new() }
    }

    /// Stores `value` under `key`, in place of what was stored there.
    pub fn insert(&mut self, key: String, value: Override)
        ensures
            final(self)@ == old(self)@.insert(key@, value@),
    {
        let ghost before = self.entries@;
        self.entries.insert(0, (key, value));
        proof {
            assert(self.entries@.drop_first() =~= before);
        }
    }

    /// The override stored under `key`.
    pub fn get(&self, key: &str) -> (r: Option<&Override>)
        ensures
            match r {
                Some(o) => self@.contains_key(key@) && self@[key@] == o@,
                None => !self@.contains_key(key@),
            },
    {
        let n: usize = self.entries.len();
        let mut i: usize = 0;
        assert(self.entries@.subrange(0, n as int) =~= self.entries@);
        while i < n
            invariant
                i <= n,
                n == self.entries@.len(),
                first_value(self.entries@, key@) == first_value(
                    self.entries@.subrange(i as int, n as int),
                    key@,
                ),
            decreases n - i,
        {
            let ghost rest = self.entries@.subrange(i as int, n as int);
            assert(rest.drop_first() =~= self.entries@.subrange(i + 1, n as int));
            if same_text(self.entries[i].0.as_str(), key) {
                return Some(&self.entries[i].1);
            }
            i = i + 1;
        }
        None
    }
}

/// The key under which a version of a package is looked up: the name, a
/// hyphen, the version.
pub open spec fn key_of(name: Seq<char>, version: Seq<char>) -> Seq<char> {
    name + seq!['-'] + version
}

/// The override that applies to a package: the one under `name-version`, else
/// the one under `name`.
pub open spec fn override_for(
    overrides: Map<Seq<char>, OverrideView>,
    name: Seq<char>,
    version: Seq<char>,
) -> Option<OverrideView> {
    if overrides.contains_key(key_of(name, version)) {
        Some(overrides[key_of(name, version)])
    } else if overrides.contains_key(name) {
        Some(overrides[name])
    } else {
        None
    }
}

/// A package after the override that applies to it, if there is one.
pub open spec fn with_overrides(
    p: PackageView,
    overrides: Map<Seq<char>, OverrideView>,
) -> PackageView {
    match override_for(overrides, p.name, p.version) {
        Some(o) => overridden(p, o),
        None => p,
    }
}

/// A package after normalization. A local package, which has no source, is
/// left as it is. To any other the override that is stored for it is applied
/// first; then it gets its origin as repository, where one can be derived.
pub open spec fn rewritten(
    p: PackageView,
    overrides: Map<Seq<char>, OverrideView>,
) -> PackageView {
    match p.source {
        Some(source) => {
            let q = with_overrides(p, overrides);
            match origin_of(q.repository, source, q.homepage) {
                Some(origin) => PackageView { repository: Some(origin), ..q },
                None => q,
            }
        },
        None => p,
    }
}

/// What a package lacks for its attribution.
#[derive(Clone, Copy, Debug, PartialEq, Eq, Structural)]
pub enum Missing {
    /// No origin can be derived.
    Repository,
    /// No license is set.
    License,
}

/// What a package with a source still lacks after normalization: an origin,
/// or else a license. A local package lacks nothing.
pub open spec fn missing(
    p: PackageView,
    overrides: Map<Seq<char>, OverrideView>,
) -> Option<Missing> {
    let q = rewritten(p, overrides);
    if q.source is None {
        None
    } else if q.repository is None {
        Some(Missing::Repository)
    } else if q.license is None {
        Some(Missing::License)
    } else {
        None
    }
}

/// The lookup key of a version of a package.
pub fn package_key(name: &str, version: &str) -> (key: String)
    ensures
        key@ == key_of(name@, version@),
{
    proof {
        reveal_strlit("-");
        assert("-"@ =~= seq!['-']);
    }
    let mut key: String = name.to_owned();
    key.append("-");
    key.append(version);
    key
}

/// Normalizes one package, unless it is local: applies the override that is
/// stored for it, and gives it its canonical origin as repository. Returns
/// what the package then lacks.
pub fn rewrite_package(package: &mut Package, overrides: &Overrides) -> (r: Option<Missing>)
    ensures
        final(package)@ == rewritten(old(package)@, overrides@),
        r == missing(old(package)@, overrides@),
{
    let source: String = match &package.source {
        Some(source) => source.clone(),
        None => {
            return None;
        },
    };
    let key = package_key(package.name.as_str(), package.version.as_str());
    match overrides.get(key.as_str()) {
        Some(o) => o.fixup(package),
        None => match overrides.get(package.name.as_str()) {
            Some(o) => o.fixup(package),
            None => {},
        },
    }
    let origin: Option<String> = match &package.repository {
        Some(url) => Some(strip_git(url.as_str()).to_owned()),
        None => match source_repository(source.as_str()) {
            Some(base) => Some(strip_git(base).to_owned()),
            None => copy_text(&package.homepage),
        },
    };
    match origin {
        Some(url) => {
            package.repository = Some(url);
        },
        None => {
            return Some(Missing::Repository);
        },
    }
    if package.license.is_none() {
        return Some(Missing::License);
    }
    None
}

/// What a list of packages denotes.
pub open spec fn package_views(ps: Seq<Package>) -> Seq<PackageView> {
    Seq::new(ps.len(), |i: int| ps[i]@)
}

/// A package that cannot be attributed, and what it lacks.
#[derive(Clone, Debug, PartialEq, Eq)]
pub struct Incomplete {
    /// The package, as `name-version`.
    pub package: String,
    pub missing: Missing,
}

/// The mathematical content of an `Incomplete`.
pub ghost struct IncompleteView {
    pub package: Seq<char>,
    pub missing: Missing,
}

impl View for Incomplete {
    type V = IncompleteView;

    open spec fn view(&self) -> IncompleteView {
        IncompleteView { package: self.package@, missing: self.missing }
    }
}

/// What a list of findings denotes.
pub open spec fn incomplete_views(v: Seq<Incomplete>) -> Seq<IncompleteView> {
    Seq::new(v.len(), |i: int| v[i]@)
}

/// The packages of `ps` that lack something after normalization, in the order
/// of `ps`, each with what it lacks.
pub open spec fn incomplete(
    ps: Seq<PackageView>,
    overrides: Map<Seq<char>, OverrideView>,
) -> Seq<IncompleteView>
    decreases ps.len(),
{
    if ps.len() == 0 {
        Seq::empty()
    } else {
        let before = incomplete(ps.drop_last(), overrides);
        match missing(ps.last(), overrides) {
            Some(m) => before.push(
                IncompleteView { package: key_of(ps.last().name, ps.last().version), missing: m },
            ),
            None => before,
        }
    }
}

/// A package with a source that lacks nothing after normalization has an
/// origin and a license.
pub proof fn lemma_complete_has_origin_and_license(
    p: PackageView,
    overrides: Map<Seq<char>, OverrideView>,
)
    requires
        p.source is Some,
        missing(p, overrides) is None,
    ensures
        rewritten(p, overrides).repository is Some,
        rewritten(p, overrides).license is Some,
{
}

/// Where no package of a list lacks anything, each of them lacks nothing.
pub proof fn lemma_none_incomplete(
    ps: Seq<PackageView>,
    overrides: Map<Seq<char>, OverrideView>,
    i: int,
)
    requires
        incomplete(ps, overrides).len() == 0,
        0 <= i < ps.len(),
    ensures
        missing(ps[i], overrides) is None,
    decreases ps.len(),
{
    if i < ps.len() - 1 {
        lemma_none_incomplete(ps.drop_last(), overrides, i);
    }
}


/// Normalizes every package. All of them are processed, whatever the earlier
/// ones lacked; the call fails when any lacks something, with the whole list
/// of findings.
pub fn rewrite_packages(packages: &mut Vec<Package>, overrides: &Overrides) -> (r: Result<
    (),
    Vec<Incomplete>,
>)
    ensures
        final(packages)@.len() == old(packages)@.len(),
        forall|i: int|
            0 <= i < old(packages)@.len() ==> (#[trigger] final(packages)@[i])@ == rewritten(
                old(packages)@[i]@,
                overrides@,
            ),
        r is Ok <==> incomplete(package_views(old(packages)@), overrides@).len() == 0,
        r matches Err(found) ==> incomplete_views(found@) == incomplete(
            package_views(old(packages)@),
            overrides@,
        ),
{
    let ghost before = package_views(packages@);
    let mut found: Vec<Incomplete> = Vec::new();
    let n: usize = packages.len();
    let mut i: usize = 0;
    while i < n
        invariant
            i <= n,
            n == packages@.len(),
            before.len() == n,
            forall|j: int|
                0 <= j < i ==> (#[trigger] packages@[j])@ == rewritten(before[j], overrides@),
            forall|j: int| i <= j < n ==> (#[trigger] packages@[j])@ == before[j],
            incomplete_views(found@) == incomplete(before.subrange(0, i as int), overrides@),
        decreases n - i,
    {
        let key = package_key(packages[i].name.as_str(), packages[i].version.as_str());
        let lacks = rewrite_package(&mut packages[i], overrides);
        proof {
            let upto = before.subrange(0, i + 1);
            assert(upto.drop_last() =~= before.subrange(0, i as int));
        }
        match lacks {
            Some(m) => {
                found.push(Incomplete { package: key, missing: m });
            },
            None => {},
        }
        i = i + 1;
    }
    assert(before.subrange(0, n as int) =~= before);
    if found.len() == 0 {
        Ok(())
    } else {
        Err(found)
    }
}

impl Package {
    /// Records the copyright holder that was found for the package.
    pub fn set_copyright(&mut self, holder: String)
        ensures
            final(self)@ == (PackageView { copyright: Some(holder@), ..old(self)@ }),
    {
        self.copyright = Some(holder);
    }

    /// A copy of the package.
    pub fn duplicate(&self) -> (r: Package)
        ensures
            r@ == self@,
    {
        Package {
            id: self.id.clone(),
            name: self.name.clone(),
            version: self.version.clone(),
            authors: copy_texts(&self.authors),
            source: copy_text(&self.source),
            license: copy_text(&self.license),
            license_file: copy_text(&self.license_file),
            repository: copy_text(&self.repository),
            homepage: copy_text(&self.homepage),
            manifest_path: self.manifest_path.clone(),
            copyright: copy_text(&self.copyright),
        }
    }
}

/// The index of the package that a list keys under `id`: the last one with
/// that identifier.
pub open spec fn package_index(ps: Seq<PackageView>, id: Seq<char>) -> Option<int>
    decreases ps.len(),
{
    if ps.len() == 0 {
        None
    } else if ps.last().id == id {
        Some(ps.len() - 1)
    } else {
        package_index(ps.drop_last(), id)
    }
}

/// The packages of `ids` that have a source, in the order of `ids`. A local
/// package, which has none, is left out.
pub open spec fn looked_up(ids: Seq<Seq<char>>, ps: Seq<PackageView>) -> Seq<PackageView>
    decreases ids.len(),
{
    if ids.len() == 0 {
        Seq::empty()
    } else {
        let before = looked_up(ids.drop_last(), ps);
        let p = ps[package_index(ps, ids.last())->0];
        if p.source is Some {
            before.push(p)
        } else {
            before
        }
    }
}

/// The index of the package that the list keys under `id`.
pub fn find_package(packages: &Vec<Package>, id: &str) -> (r: Option<usize>)
    ensures
        match r {
            Some(i) => i < packages@.len() && package_index(package_views(packages@), id@) == Some(
                i as int,
            ),
            None => package_index(package_views(packages@), id@) is None,
        },
{
    let ghost all = package_views(packages@);
    let mut i: usize = packages.len();
    assert(all.subrange(0, i as int) =~= all);
    while i > 0
        invariant
            i <= packages@.len(),
            all == package_views(packages@),
            package_index(all, id@) == package_index(all.subrange(0, i as int), id@),
        decreases i,
    {
        let ghost upto = all.subrange(0, i as int);
        assert(upto.drop_last() =~= all.subrange(0, i - 1));
        if same_text(packages[i - 1].id.as_str(), id) {
            return Some(i - 1);
        }
        i = i - 1;
    }
    None
}

/// Every identifier of `ids` is that of a package of `ps`.
pub open spec fn all_known(ids: Seq<Seq<char>>, ps: Seq<PackageView>) -> bool {
    forall|i: int| 0 <= i < ids.len() ==> package_index(ps, #[trigger] ids[i]) is Some
}

/// Whether every identifier of `package_ids` is that of a package.
pub fn knows_all(package_ids: &Vec<String>, packages: &Vec<Package>) -> (r: bool)
    ensures
        r == all_known(texts_of(package_ids@), package_views(packages@)),
{
    let mut i: usize = 0;
    while i < package_ids.len()
        invariant
            i <= package_ids@.len(),
            forall|j: int|
                0 <= j < i ==> package_index(
                    package_views(packages@),
                    #[trigger] texts_of(package_ids@)[j],
                ) is Some,
        decreases package_ids@.len() - i,
    {
        if find_package(packages, package_ids[i].as_str()).is_none() {
            assert(texts_of(package_ids@)[i as int] == package_ids@[i as int]@);
            return false;
        }
        i = i + 1;
    }
    true
}

/// The packages with the given identifiers, without the local ones.
pub fn lookup_deps(package_ids: Vec<String>, packages: Vec<Package>) -> (out: Vec<Package>)
    requires
        all_known(texts_of(package_ids@), package_views(packages@)),
    ensures
        package_views(out@) == looked_up(texts_of(package_ids@), package_views(packages@)),
        forall|i: int| 0 <= i < out@.len() ==> (#[trigger] out@[i])@.source is Some,
{
    let ghost ids = texts_of(package_ids@);
    let ghost ps = package_views(packages@);
    let mut out: Vec<Package> = Vec::new();
    let mut i: usize = 0;
    while i < package_ids.len()
        invariant
            i <= package_ids@.len(),
            ids == texts_of(package_ids@),
            ps == package_views(packages@),
            all_known(ids, ps),
            package_views(out@) == looked_up(ids.subrange(0, i as int), ps),
            forall|j: int| 0 <= j < out@.len() ==> (#[trigger] out@[j])@.source is Some,
        decreases package_ids@.len() - i,
    {
        let ghost upto = ids.subrange(0, i + 1);
        assert(upto.drop_last() =~= ids.subrange(0, i as int));
        assert(upto.last() == ids[i as int]);
        match find_package(&packages, package_ids[i].as_str()) {
            Some(at) => {
                if packages[at].source.is_some() {
                    out.push(packages[at].duplicate());
                }
            },
            None => {
                // every identifier is known
                assert(false);
            },
        }
        i = i + 1;
    }
    assert(ids.subrange(0, package_ids@.len() as int) =~= ids);
    out
}

} // verus!
