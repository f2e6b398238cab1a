//! One workspace package: its identity, its publish-relevant dependency
//! sets, and the version-policy decisions made about it.

use vstd::prelude::*;

use crate::crates_io::CratesIoCrateVersion;
use crate::dependencies::{
    dev_sections_clean, entry_is_path_dep, entry_logical_name, entry_package_broken,
    entry_path_broken, entry_ws_conflict, section_clean, section_edited, section_stripped,
    strip_dev_dependency_versions, write_dependency_field_value, CrateDependencyKey, DepSectionView,
    Manifest, ManifestError, ManifestView,
};
use crate::text::{bytes_eq, str_eq, str_views};
use crate::version::{
    bounded, is_max_of, maybe_bump_version, max_version, spec_bump, spec_max2, spec_render,
    spec_strip_pre, version_views, Version, VersionBumpHeuristic, VersionView,
};

verus! {

/// The dependency kinds a manifest can declare.
#[derive(Clone, Copy, PartialEq, Eq, Structural, Debug)]
pub enum DependencyKind {
    Normal,
    Development,
    Build,
}

/// One dependency as the workspace loader reports it: its package name,
/// its kind, and whether it is resolved by a filesystem path.
pub struct DependencyMeta {
    pub name: String,
    pub kind: DependencyKind,
    pub has_path: bool,
}

/// One package as the workspace loader reports it.
pub struct PackageMeta {
    pub name: String,
    pub version: Version,
    pub manifest_path: String,
    pub dependencies: Vec<DependencyMeta>,
    /// `None` means the package may be published anywhere; an explicit
    /// list of registries restricts it, and an empty list forbids it.
    pub publish: Option<Vec<String>>,
    pub readme: Option<String>,
    pub description: Option<String>,
}

/// A sequence of names with no repetition.
pub open spec fn names_distinct(names: Seq<Seq<char>>) -> bool {
    forall|i: int, j: int| 0 <= i < j < names.len() ==> names[i] != names[j]
}

/// The path-based dependency names of kind `kind` in `deps`.
pub open spec fn spec_path_dep_names(deps: Seq<DependencyMeta>, kind: DependencyKind) -> Set<
    Seq<char>,
> {
    Set::new(
        |n: Seq<char>|
            exists|i: int|
                0 <= i < deps.len() && (#[trigger] deps[i]).has_path && deps[i].kind == kind
                    && deps[i].name@ == n,
    )
}

/// What the manifest's publish field allows: an absent field allows
/// publishing, an explicit registry list allows it exactly when nonempty.
pub open spec fn spec_should_be_published(publish: Option<Vec<String>>) -> bool {
    match publish {
        Some(registries) => registries@.len() > 0,
        None => true,
    }
}

/// A workspace package with the fields the publication engine works on.
pub struct CrateDetails {
    pub name: String,
    pub version: Version,
    pub deps: Vec<String>,
    pub build_deps: Vec<String>,
    pub dev_deps: Vec<String>,
    pub should_be_published: bool,
    pub manifest_path: String,
    pub readme: Option<String>,
    pub description: Option<String>,
}

impl CrateDetails {
    /// Each dependency list holds distinct names.
    pub open spec fn wf(&self) -> bool {
        &&& names_distinct(str_views(self.deps@))
        &&& names_distinct(str_views(self.build_deps@))
        &&& names_distinct(str_views(self.dev_deps@))
    }

    /// The publish-relevant dependency names: path-based dependencies of
    /// the plain `dependencies` kind.
    pub open spec fn spec_deps(&self) -> Seq<Seq<char>> {
        str_views(self.deps@)
    }

    /// A bare record for exercising the engine: version 0.1.0, no
    /// dependencies, publishable.
    pub fn new_for_testing(name: String) -> (r: CrateDetails)
        ensures
            r.name@ == name@,
            r@ == (CrateDetailsView {
                name: name@,
                version: VersionView {
                    major: 0,
                    minor: 1,
                    patch: 0,
                    pre: Seq::empty(),
                    build: Seq::empty(),
                },
                deps: Seq::empty(),
                build_deps: Seq::empty(),
                dev_deps: Seq::empty(),
                should_be_published: true,
            }),
            r.wf(),
    {
        proof {
            reveal_strlit("Placeholder description");
        }
        let r = CrateDetails {
            name,
            version: Version::new(0, 1, 0),
            deps: Vec::new(),
            build_deps: Vec::new(),
            dev_deps: Vec::new(),
            should_be_published: true,
            manifest_path: String::new(),
            readme: None,
            description: Some("Placeholder description".to_owned()),
        };
        proof {
            assert(str_views(r.deps@) =~= Seq::<Seq<char>>::empty());
            assert(str_views(r.build_deps@) =~= Seq::<Seq<char>>::empty());
            assert(str_views(r.dev_deps@) =~= Seq::<Seq<char>>::empty());
            assert(r@ =~= (CrateDetailsView {
                name: r.name@,
                version: VersionView {
                    major: 0,
                    minor: 1,
                    patch: 0,
                    pre: Seq::empty(),
                    build: Seq::empty(),
                },
                deps: Seq::empty(),
                build_deps: Seq::empty(),
                dev_deps: Seq::empty(),
                should_be_published: true,
            }));
        }
        r
    }

    /// Build a package record from what the workspace loader reports:
    /// keep the path-based dependencies of each kind, one entry per name,
    /// and derive the publish permission from the manifest's publish
    /// field.
    pub fn load(pkg: &PackageMeta) -> (r: CrateDetails)
        ensures
            r.name@ == pkg.name@,
            r.version@ == pkg.version@,
            r.manifest_path@ == pkg.manifest_path@,
            r.should_be_published == spec_should_be_published(pkg.publish),
            r.wf(),
            str_views(r.deps@).to_set() =~= spec_path_dep_names(
                pkg.dependencies@,
                DependencyKind::Normal,
            ),
            str_views(r.dev_deps@).to_set() =~= spec_path_dep_names(
                pkg.dependencies@,
                DependencyKind::Development,
            ),
            str_views(r.build_deps@).to_set() =~= spec_path_dep_names(
                pkg.dependencies@,
                DependencyKind::Build,
            ),
            match r.readme {
                Some(v) => pkg.readme matches Some(o) && v@ == o@,
                None => pkg.readme is None,
            },
            match r.description {
                Some(v) => pkg.description matches Some(o) && v@ == o@,
                None => pkg.description is None,
            },
    {
        let deps = collect_path_deps(&pkg.dependencies, DependencyKind::Normal);
        let dev_deps = collect_path_deps(&pkg.dependencies, DependencyKind::Development);
        let build_deps = collect_path_deps(&pkg.dependencies, DependencyKind::Build);
        let should_be_published = match &pkg.publish {
            Some(registries) => registries.len() > 0,
            None => true,
        };
        CrateDetails {
            name: clone_string(&pkg.name),
            version: pkg.version.duplicate(),
            deps,
            dev_deps,
            build_deps,
            should_be_published,
            manifest_path: clone_string(&pkg.manifest_path),
            readme: clone_opt_string(&pkg.readme),
            description: clone_opt_string(&pkg.description),
        }
    }

    /// The publish-relevant dependencies.
    pub fn deps_to_publish(&self) -> (r: &Vec<String>)
        ensures
            str_views(r@) == self.spec_deps(),
    {
        &self.deps
    }

    /// The adjust step of the version policy: the highest of the non-yanked
    /// previous versions and the current version; `Some` exactly when that
    /// highest version differs from the current one, which the caller then
    /// writes back.
    pub fn adjust_version(&self, prev_versions: &Vec<CratesIoCrateVersion>) -> (r: Option<Version>)
        ensures
            match r {
                Some(v) => !(v@ =~= self.version@) && is_max_of(
                    v@,
                    version_views(not_yanked(prev_versions@)).push(self.version@),
                ),
                None => is_max_of(
                    self.version@,
                    version_views(not_yanked(prev_versions@)).push(self.version@),
                ),
            },
    {
        let n = prev_versions.len();
        let mut candidates: Vec<Version> = Vec::new();
        let mut i: usize = 0;
        while i < n
            invariant
                n == prev_versions@.len(),
                0 <= i <= n,
                version_views(candidates@) =~= version_views(
                    not_yanked(prev_versions@.take(i as int)),
                ),
            decreases n - i,
        {
            let ghost pre_candidates = candidates@;
            if !prev_versions[i].yanked {
                candidates.push(prev_versions[i].version.duplicate());
            }
            proof {
                lemma_not_yanked_take(prev_versions@, i as int);
                if !prev_versions@[i as int].yanked {
                    assert(version_views(candidates@) =~= version_views(pre_candidates).push(
                        prev_versions@[i as int].version@,
                    ));
                    assert(version_views(not_yanked(prev_versions@.take(i + 1))) =~= version_views(
                        not_yanked(prev_versions@.take(i as int)),
                    ).push(prev_versions@[i as int].version@));
                }
            }
            i += 1;
        }
        candidates.push(self.version.duplicate());
        proof {
            assert(prev_versions@.take(n as int) =~= prev_versions@);
            assert(version_views(candidates@) =~= version_views(not_yanked(prev_versions@)).push(
                self.version@,
            ));
        }
        let best = match max_version(&candidates) {
            Some(b) => b,
            None => {
                // Unreachable: the candidate list holds the current version.
                return None;
            },
        };
        if best.eq(&self.version) {
            proof {
                assert(is_max_of(
                    self.version@,
                    version_views(not_yanked(prev_versions@)).push(self.version@),
                ));
            }
            None
        } else {
            Some(best)
        }
    }

    /// The bump step of the version policy applied to this package:
    /// `Some` carries the new version to write back.
    pub fn maybe_bump_version(
        &self,
        prev_versions: Vec<Version>,
        bump_mode: &VersionBumpHeuristic,
    ) -> (r: Option<Version>)
        requires
            bounded(self.version@),
            forall|i: int|
                0 <= i < prev_versions@.len() ==> bounded(#[trigger] prev_versions@[i]@),
        ensures
            match r {
                Some(v) => if prev_versions@.len() == 0 {
                    self.version@.pre.len() > 0 && v@ =~= spec_strip_pre(self.version@)
                } else {
                    exists|l: VersionView|
                        #[trigger] is_max_of(l, version_views(prev_versions@)) && v@ =~= spec_bump(
                            spec_strip_pre(spec_max2(self.version@, l)),
                            *bump_mode matches VersionBumpHeuristic::Breaking,
                        )
                },
                None => prev_versions@.len() == 0 && self.version@.pre.len() == 0,
            },
    {
        maybe_bump_version(prev_versions, self.version.duplicate(), bump_mode)
    }

    /// Whether publication needs a version bump first: a pre-release tag
    /// always does; otherwise a bump is needed exactly when the current
    /// version is not among the known published versions.
    pub fn needs_version_bump_to_publish(&self, known_versions: &Vec<Version>) -> (r: bool)
        ensures
            r == (self.version@.pre.len() > 0 || !version_views(known_versions@).contains(
                self.version@,
            )),
    {
        if self.pre_nonempty() {
            return true;
        }
        let n = known_versions.len();
        let mut i: usize = 0;
        while i < n
            invariant
                self.version@.pre.len() == 0,
                n == known_versions@.len(),
                0 <= i <= n,
                forall|k: int|
                    0 <= k < i ==> !(#[trigger] version_views(known_versions@)[k] =~= self.version@),
            decreases n - i,
        {
            if known_versions[i].eq(&self.version) {
                proof {
                    assert(version_views(known_versions@)[i as int] == self.version@);
                    assert(version_views(known_versions@).contains(self.version@));
                }
                return false;
            }
            i += 1;
        }
        proof {
            assert forall|k: int|
                0 <= k < version_views(known_versions@).len() implies version_views(
                known_versions@,
            )[k] != self.version@ by {
                assert(!(version_views(known_versions@)[k] =~= self.version@));
            }
        }
        true
    }

    fn pre_nonempty(&self) -> (r: bool)
        ensures
            r == (self.version@.pre.len() > 0),
    {
        self.version.pre.len() > 0
    }
}

/// The mathematical value of a package record, without its filesystem
/// locations.
#[verifier::ext_equal]
pub ghost struct CrateDetailsView {
    pub name: Seq<char>,
    pub version: VersionView,
    pub deps: Seq<Seq<char>>,
    pub build_deps: Seq<Seq<char>>,
    pub dev_deps: Seq<Seq<char>>,
    pub should_be_published: bool,
}

impl View for CrateDetails {
    type V = CrateDetailsView;

    open spec fn view(&self) -> CrateDetailsView {
        CrateDetailsView {
            name: self.name@,
            version: self.version@,
            deps: str_views(self.deps@),
            build_deps: str_views(self.build_deps@),
            dev_deps: str_views(self.dev_deps@),
            should_be_published: self.should_be_published,
        }
    }
}

/// The previous versions that were not yanked.
pub open spec fn not_yanked(prev: Seq<CratesIoCrateVersion>) -> Seq<Version> {
    prev.filter(|p: CratesIoCrateVersion| !p.yanked).map_values(
        |p: CratesIoCrateVersion| p.version,
    )
}

/// Scanning one more previous version extends the non-yanked list by its
/// version exactly when it was not yanked.
proof fn lemma_not_yanked_take(prev: Seq<CratesIoCrateVersion>, i: int)
    requires
        0 <= i < prev.len(),
    ensures
        not_yanked(prev.take(i + 1)) =~= if prev[i].yanked {
            not_yanked(prev.take(i))
        } else {
            not_yanked(prev.take(i)).push(prev[i].version)
        },
{
    let pred = |p: CratesIoCrateVersion| !p.yanked;
    assert(prev.take(i + 1).drop_last() =~= prev.take(i));
    assert(prev.take(i + 1).last() == prev[i]);
    reveal_with_fuel(Seq::filter, 2);
    assert(prev.take(i + 1).filter(pred) == if pred(prev[i]) {
        prev.take(i).filter(pred).push(prev[i])
    } else {
        prev.take(i).filter(pred)
    });
}

/// Copy a string.
pub fn clone_string(s: &String) -> (r: String)
    ensures
        r@ == s@,
{
    s.as_str().to_owned()
}

/// Copy an optional string.
pub fn clone_opt_string(s: &Option<String>) -> (r: Option<String>)
    ensures
        match r {
            Some(v) => s matches Some(o) && v@ == o@,
            None => s is None,
        },
{
    match s {
        Some(v) => Some(clone_string(v)),
        None => None,
    }
}

/// The distinct path-based dependency names of the given kind, in first
/// appearance order.
fn collect_path_deps(deps: &Vec<DependencyMeta>, kind: DependencyKind) -> (r: Vec<String>)
    ensures
        names_distinct(str_views(r@)),
        str_views(r@).to_set() =~= spec_path_dep_names(deps@, kind),
{
    let n = deps.len();
    let mut out: Vec<String> = Vec::new();
    let mut i: usize = 0;
    while i < n
        invariant
            n == deps@.len(),
            0 <= i <= n,
            names_distinct(str_views(out@)),
            str_views(out@).to_set() =~= spec_path_dep_names(deps@.take(i as int), kind),
        decreases n - i,
    {
        let ghost pre_out = out@;
        let d = &deps[i];
        let keep = d.has_path && kind_eq(d.kind, kind);
        let mut pushed = false;
        if keep {
            if !contains_name(&out, d.name.as_str()) {
                out.push(clone_string(&d.name));
                pushed = true;
                proof {
                    assert(str_views(out@) =~= str_views(pre_out).push(d.name@));
                    assert forall|a: int, b: int|
                        0 <= a < b < str_views(out@).len() implies str_views(out@)[a] != str_views(
                        out@,
                    )[b] by {
                        if b == str_views(out@).len() - 1 {
                            assert(!str_views(pre_out).contains(d.name@));
                            assert(str_views(pre_out)[a] == str_views(out@)[a]);
                        }
                    }
                }
            }
        }
        proof {
            lemma_path_dep_names_take(deps@, kind, i as int);
            let target = spec_path_dep_names(deps@.take(i + 1), kind);
            assert forall|n: Seq<char>| str_views(out@).to_set().contains(n) implies target.contains(
                n,
            ) by {
                if str_views(pre_out).contains(n) {
                    assert(spec_path_dep_names(deps@.take(i as int), kind).contains(n));
                } else {
                    assert(str_views(out@) =~= str_views(pre_out).push(d.name@));
                    assert(n == d.name@);
                }
            }
            assert forall|n: Seq<char>| target.contains(n) implies str_views(out@).to_set().contains(
                n,
            ) by {
                if spec_path_dep_names(deps@.take(i as int), kind).contains(n) {
                    assert(str_views(pre_out).contains(n));
                    if pushed {
                        let k = choose|k: int|
                            0 <= k < str_views(pre_out).len() && str_views(pre_out)[k] == n;
                        assert(str_views(out@)[k] == n);
                    }
                } else {
                    assert(n == d.name@);
                    if pushed {
                        assert(str_views(out@).last() == n);
                    } else {
                        assert(str_views(pre_out).contains(n));
                    }
                }
            }
            assert(str_views(out@).to_set() =~= target);
        }
        i += 1;
    }
    proof {
        assert(deps@.take(n as int) =~= deps@);
    }
    out
}

/// Extending the scanned prefix by one dependency extends its name set by
/// that dependency's name when it counts, and not otherwise.
proof fn lemma_path_dep_names_take(deps: Seq<DependencyMeta>, kind: DependencyKind, i: int)
    requires
        0 <= i < deps.len(),
    ensures
        spec_path_dep_names(deps.take(i + 1), kind) =~= if deps[i].has_path && deps[i].kind == kind {
            spec_path_dep_names(deps.take(i), kind).insert(deps[i].name@)
        } else {
            spec_path_dep_names(deps.take(i), kind)
        },
{
    let pre = deps.take(i);
    let ext = deps.take(i + 1);
    assert forall|n: Seq<char>| spec_path_dep_names(ext, kind).contains(n) implies (if deps[i].has_path
        && deps[i].kind == kind {
        spec_path_dep_names(pre, kind).insert(deps[i].name@)
    } else {
        spec_path_dep_names(pre, kind)
    }).contains(n) by {
        let k = choose|k: int|
            0 <= k < ext.len() && (#[trigger] ext[k]).has_path && ext[k].kind == kind && ext[k].name@
                == n;
        if k < i {
            assert(pre[k] == ext[k]);
            assert(spec_path_dep_names(pre, kind).contains(n));
        }
    }
    assert forall|n: Seq<char>| (if deps[i].has_path && deps[i].kind == kind {
        spec_path_dep_names(pre, kind).insert(deps[i].name@)
    } else {
        spec_path_dep_names(pre, kind)
    }).contains(n) implies spec_path_dep_names(ext, kind).contains(n) by {
        if spec_path_dep_names(pre, kind).contains(n) {
            let k = choose|k: int|
                0 <= k < pre.len() && (#[trigger] pre[k]).has_path && pre[k].kind == kind
                    && pre[k].name@ == n;
            assert(ext[k] == pre[k]);
        } else {
            assert(ext[i] == deps[i]);
        }
    }
}

/// Whether `names` holds `name`.
pub fn contains_name(names: &Vec<String>, name: &str) -> (r: bool)
    ensures
        r == str_views(names@).contains(name@),
{
    let n = names.len();
    let mut i: usize = 0;
    while i < n
        invariant
            n == names@.len(),
            0 <= i <= n,
            forall|k: int| 0 <= k < i ==> str_views(names@)[k] != name@,
        decreases n - i,
    {
        if str_eq(names[i].as_str(), name) {
            assert(str_views(names@)[i as int] == name@);
            return true;
        }
        i += 1;
    }
    proof {
        assert forall|k: int| 0 <= k < str_views(names@).len() implies str_views(names@)[k]
            != name@ by {}
    }
    false
}

/// Whether two dependency kinds are the same.
fn kind_eq(a: DependencyKind, b: DependencyKind) -> (r: bool)
    ensures
        r == (a == b),
{
    match (a, b) {
        (DependencyKind::Normal, DependencyKind::Normal) => true,
        (DependencyKind::Development, DependencyKind::Development) => true,
        (DependencyKind::Build, DependencyKind::Build) => true,
        _ => false,
    }
}

} // verus!

verus! {

/// Whether the change detector must publish: the current version is
/// missing from (or yanked in) the known versions when they are given, or
/// the locally packaged artifact differs from the registry's.
pub open spec fn spec_needs_publishing(
    current: VersionView,
    known: Option<Seq<CratesIoCrateVersion>>,
    local: Seq<u8>,
    registry: Option<Seq<u8>>,
) -> bool {
    (match known {
        Some(ks) => !version_views(not_yanked(ks)).contains(current),
        None => false,
    }) || (match registry {
        Some(bytes) => !(bytes =~= local),
        None => true,
    })
}

impl CrateDetails {
    /// The change detector's verdict for this crate, given the known
    /// published versions (when the registry listed them), the locally
    /// packaged artifact and the registry's artifact (when one exists):
    /// `true` exactly when a new upload is needed. The verdict is a
    /// function of these inputs alone, so detecting twice on an unchanged
    /// source yields the same verdict; and a registry artifact that is
    /// byte-identical to the local one, for a version the registry knows,
    /// means up-to-date.
    pub fn needs_publishing(
        &self,
        known_versions: Option<&Vec<CratesIoCrateVersion>>,
        local_artifact: &Vec<u8>,
        registry_artifact: Option<&Vec<u8>>,
    ) -> (r: bool)
        ensures
            r == spec_needs_publishing(
                self.version@,
                match known_versions {
                    Some(ks) => Some(ks@),
                    None => None,
                },
                local_artifact@,
                match registry_artifact {
                    Some(b) => Some(b@),
                    None => None,
                },
            ),
    {
        let version_missing = match known_versions {
            Some(ks) => {
                let mut found = false;
                let n = ks.len();
                let mut i: usize = 0;
                while i < n
                    invariant
                        n == ks@.len(),
                        0 <= i <= n,
                        found == exists|j: int|
                            0 <= j < i && !(#[trigger] ks@[j]).yanked && ks@[j].version@ =~= self.version@,
                    decreases n - i,
                {
                    if !found && !ks[i].yanked {
                        if ks[i].version.eq(&self.version) {
                            found = true;
                            proof {
                                assert(!ks@[i as int].yanked && ks@[i as int].version@
                                    =~= self.version@);
                            }
                        }
                    }
                    i += 1;
                }
                proof {
                    lemma_not_yanked_contains(ks@, self.version@);
                }
                !found
            },
            None => false,
        };
        if version_missing {
            return true;
        }
        match registry_artifact {
            Some(bytes) => !bytes_eq(bytes, local_artifact),
            None => true,
        }
    }

    /// Record a new version for this crate; the caller writes the same
    /// version into the crate's manifest.
    pub fn write_own_version(&mut self, manifest: &mut Manifest, new_version: Version)
        ensures
            final(self)@ == (CrateDetailsView { version: new_version@, ..old(self)@ }),
            final(manifest)@ == (ManifestView {
                version: spec_render(new_version@),
                ..old(manifest)@
            }),
    {
        let rendered = new_version.to_display_string();
        manifest.set_own_version(&rendered);
        self.version = new_version;
        proof {
            assert(final(self)@ =~= (CrateDetailsView { version: new_version@, ..old(self)@ }));
            assert(final(manifest)@ =~= (ManifestView {
                version: spec_render(new_version@),
                ..old(manifest)@
            }));
        }
    }

    /// Strip the `version` field of every path-based dev-dependency entry
    /// that is not also a publish-relevant dependency, so the packaging
    /// tool drops the entry and circular dev-dependencies do not block
    /// publishing.
    pub fn tweak_deps_for_publishing(&self, manifest: &mut Manifest) -> (r: Result<
        bool,
        ManifestError,
    >)
        ensures
            match r {
                Ok(_) => {
                    &&& final(manifest)@.package_name == old(manifest)@.package_name
                    &&& final(manifest)@.version == old(manifest)@.version
                    &&& final(manifest)@.description == old(manifest)@.description
                    &&& final(manifest)@.readme == old(manifest)@.readme
                    &&& final(manifest)@.sections.len() == old(manifest)@.sections.len()
                    &&& forall|s: int|
                        0 <= s < old(manifest)@.sections.len() && (#[trigger] old(manifest)@.sections[s]).kind == CrateDependencyKey::DevDependencies
                            ==> section_stripped(
                            old(manifest)@.sections[s],
                            final(manifest)@.sections[s],
                            self.spec_strip_set(),
                        )
                    &&& forall|s: int|
                        0 <= s < old(manifest)@.sections.len() && (#[trigger] old(manifest)@.sections[s]).kind != CrateDependencyKey::DevDependencies ==> final(manifest)@.sections[s] == old(manifest)@.sections[s]
                    &&& dev_sections_clean(old(manifest)@.sections)
                },
                Err(ManifestError::PackageNotString(k)) => final(manifest)@ == old(manifest)@
                    && exists|s: int, i: int|
                    0 <= s < old(manifest)@.sections.len() && (#[trigger] old(manifest)@.sections[s]).kind == CrateDependencyKey::DevDependencies && 0 <= i < old(manifest)@.sections[s].entries.len() && entry_package_broken(
                        #[trigger] old(manifest)@.sections[s].entries[i],
                    ) && old(manifest)@.sections[s].entries[i].key == k@,
                Err(_) => false,
            },
    {
        let strip = self.dev_only_deps();
        strip_dev_dependency_versions(manifest, &strip)
    }

    /// The dev-dependency names that are not also publish-relevant
    /// dependencies.
    pub open spec fn spec_strip_set(&self) -> Seq<Seq<char>> {
        str_views(self.dev_deps@).filter(|nm: Seq<char>| !self.spec_deps().contains(nm))
    }

    /// Compute the dev-only dependency names.
    fn dev_only_deps(&self) -> (r: Vec<String>)
        ensures
            str_views(r@) =~= self.spec_strip_set(),
    {
        let ghost pred = |nm: Seq<char>| !self.spec_deps().contains(nm);
        let ghost dv = str_views(self.dev_deps@);
        let n = self.dev_deps.len();
        let mut r: Vec<String> = Vec::new();
        let mut i: usize = 0;
        proof {
            assert(dv.take(0) =~= Seq::<Seq<char>>::empty());
            assert(str_views(r@) =~= dv.take(0).filter(pred));
        }
        while i < n
            invariant
                n == self.dev_deps@.len(),
                dv == str_views(self.dev_deps@),
                pred == (|nm: Seq<char>| !self.spec_deps().contains(nm)),
                0 <= i <= n,
                str_views(r@) =~= dv.take(i as int).filter(pred),
            decreases n - i,
        {
            let ghost pre = r@;
            let keep = !contains_name(&self.deps, self.dev_deps[i].as_str());
            if keep {
                r.push(clone_string(&self.dev_deps[i]));
                proof {
                    assert(str_views(r@) =~= str_views(pre).push(dv[i as int]));
                }
            }
            proof {
                assert(dv.take(i + 1).drop_last() =~= dv.take(i as int));
                assert(dv.take(i + 1).last() == dv[i as int]);
                reveal_with_fuel(Seq::filter, 2);
            }
            i += 1;
        }
        proof {
            assert(dv.take(n as int) =~= dv);
        }
        r
    }

    /// Whether a synthetic readme must be written beside the manifest: the
    /// manifest declares none and no readme file exists there.
    pub fn needs_synthetic_readme(&self, readme_file_exists: bool) -> (r: bool)
        ensures
            r == (self.readme is None && !readme_file_exists),
    {
        match &self.readme {
            None => !readme_file_exists,
            Some(_) => false,
        }
    }

    /// The synthetic readme contents for this crate.
    pub fn synthetic_readme(&self) -> (r: String)
        ensures
            r@ =~= "# "@ + self.name@ + "\n\nAuto-generated README.md for publishing to crates.io"@,
    {
        let mut s = "# ".to_owned();
        s.append(self.name.as_str());
        s.append("\n\nAuto-generated README.md for publishing to crates.io");
        s
    }

    /// Give the manifest a description when the crate has none: the
    /// package name stands in.
    pub fn tweak_description_for_publishing(&self, manifest: &mut Manifest)
        ensures
            self.description is None ==> final(manifest)@ == (ManifestView {
                description: Some(self.name@),
                ..old(manifest)@
            }),
            self.description is Some ==> final(manifest)@ == old(manifest)@,
    {
        if self.description.is_none() {
            manifest.set_description(&self.name);
        }
    }

    /// All manifest edits that make the crate publishable: strip the
    /// dev-only dependency versions and fill in a missing description.
    /// The synthetic readme, a filesystem affair, is decided by
    /// `needs_synthetic_readme`.
    pub fn prepare_for_publish(&self, manifest: &mut Manifest) -> (r: Result<bool, ManifestError>)
        ensures
            match r {
                Ok(_) => true,
                Err(ManifestError::PackageNotString(k)) => final(manifest)@ == old(manifest)@
                    && exists|s: int, i: int|
                    0 <= s < old(manifest)@.sections.len() && (#[trigger] old(manifest)@.sections[s]).kind == CrateDependencyKey::DevDependencies && 0 <= i < old(manifest)@.sections[s].entries.len() && entry_package_broken(
                        #[trigger] old(manifest)@.sections[s].entries[i],
                    ) && old(manifest)@.sections[s].entries[i].key == k@,
                Err(_) => false,
            },
            r is Ok ==> dev_sections_clean(old(manifest)@.sections),
            r is Ok ==> {
                &&& final(manifest)@.package_name == old(manifest)@.package_name
                &&& final(manifest)@.version == old(manifest)@.version
                &&& final(manifest)@.readme == old(manifest)@.readme
                &&& final(manifest)@.sections.len() == old(manifest)@.sections.len()
                &&& forall|s: int|
                    0 <= s < old(manifest)@.sections.len() && (#[trigger] old(manifest)@.sections[s]).kind == CrateDependencyKey::DevDependencies
                        ==> section_stripped(
                        old(manifest)@.sections[s],
                        final(manifest)@.sections[s],
                        self.spec_strip_set(),
                    )
                &&& forall|s: int|
                    0 <= s < old(manifest)@.sections.len() && (#[trigger] old(manifest)@.sections[s]).kind != CrateDependencyKey::DevDependencies ==> final(manifest)@.sections[s] == old(manifest)@.sections[s]
                &&& (self.description is None ==> final(manifest)@.description == Some(
                    self.name@,
                ))
                &&& (self.description is Some ==> final(manifest)@.description == old(manifest)@.description)
            },
    {
        let modified = match self.tweak_deps_for_publishing(manifest) {
            Ok(m) => m,
            Err(e) => {
                return Err(e);
            },
        };
        self.tweak_description_for_publishing(manifest);
        Ok(modified)
    }
}

/// Write one dependency's version into every table of a manifest that
/// names it, dropping the given fields; a shorthand entry is overwritten
/// whole.
pub fn write_dependency_version(
    manifest: &mut Manifest,
    dep: &String,
    version: &Version,
    fields_to_remove: &Vec<String>,
) -> (r: Result<bool, ManifestError>)
    ensures
        match r {
            Ok(_) => {
                &&& final(manifest)@.version == old(manifest)@.version
                &&& final(manifest)@.description == old(manifest)@.description
                &&& final(manifest)@.sections.len() == old(manifest)@.sections.len()
                &&& forall|s: int|
                    0 <= s < old(manifest)@.sections.len() ==> section_edited(
                        #[trigger] old(manifest)@.sections[s],
                        final(manifest)@.sections[s],
                        seq![dep@],
                        "version"@,
                        spec_render(version@),
                        str_views(fields_to_remove@),
                        true,
                    )
                &&& forall|s: int|
                    0 <= s < old(manifest)@.sections.len() ==> section_clean(
                        #[trigger] old(manifest)@.sections[s],
                        seq![dep@],
                    )
            },
            Err(ManifestError::PackageNotString(k)) => final(manifest)@ == old(manifest)@
                && exists|s: int, i: int|
                0 <= s < old(manifest)@.sections.len() && 0 <= i < old(manifest)@.sections[s].entries.len() && entry_package_broken(
                    #[trigger] old(manifest)@.sections[s].entries[i],
                ) && old(manifest)@.sections[s].entries[i].key == k@,
            Err(ManifestError::WorkspaceNotSupported(k)) => final(manifest)@ == old(manifest)@
                && exists|s: int, i: int|
                0 <= s < old(manifest)@.sections.len() && 0 <= i < old(manifest)@.sections[s].entries.len() && entry_ws_conflict(
                    #[trigger] old(manifest)@.sections[s].entries[i],
                    seq![dep@],
                ) && old(manifest)@.sections[s].entries[i].key == k@,
            Err(_) => false,
        },
{
    let rendered = version.to_display_string();
    let mut deps: Vec<String> = Vec::new();
    deps.push(clone_string(dep));
    proof {
        assert(str_views(deps@) =~= seq![dep@]);
    }
    let field = "version".to_owned();
    write_dependency_field_value(manifest, &deps, fields_to_remove, &field, &rendered, true)
}

/// The current version is among the non-yanked known versions exactly when
/// some non-yanked record carries it.
proof fn lemma_not_yanked_contains(ks: Seq<CratesIoCrateVersion>, v: VersionView)
    ensures
        version_views(not_yanked(ks)).contains(v) <==> exists|j: int|
            0 <= j < ks.len() && !(#[trigger] ks[j]).yanked && ks[j].version@ =~= v,
    decreases ks.len(),
{
    reveal_with_fuel(Seq::filter, 2);
    if ks.len() == 0 {
    } else {
        lemma_not_yanked_contains(ks.drop_last(), v);
        let pred = |p: CratesIoCrateVersion| !p.yanked;
        assert(ks.drop_last().len() == ks.len() - 1);
        let fl = ks.filter(pred);
        let fdl = ks.drop_last().filter(pred);
        if pred(ks.last()) {
            assert(fl == fdl.push(ks.last()));
            assert(version_views(not_yanked(ks)) =~= version_views(not_yanked(ks.drop_last())).push(
                ks.last().version@,
            ));
        } else {
            assert(fl == fdl);
        }
        assert forall|j: int|
            0 <= j < ks.len() && !(#[trigger] ks[j]).yanked && ks[j].version@ =~= v implies version_views(
            not_yanked(ks),
        ).contains(v) by {
            if j < ks.len() - 1 {
                assert(ks.drop_last()[j] == ks[j]);
                assert(version_views(not_yanked(ks.drop_last())).contains(v));
                let w = choose|w: int|
                    0 <= w < version_views(not_yanked(ks.drop_last())).len() && version_views(
                        not_yanked(ks.drop_last()),
                    )[w] == v;
                assert(version_views(not_yanked(ks))[w] == v);
            } else {
                assert(version_views(not_yanked(ks)).last() == ks.last().version@);
            }
        }
        if version_views(not_yanked(ks)).contains(v) {
            let w = choose|w: int|
                0 <= w < version_views(not_yanked(ks)).len() && version_views(not_yanked(ks))[w]
                    == v;
            if pred(ks.last()) && w == version_views(not_yanked(ks)).len() - 1 {
                assert(ks.last().version@ == v);
                assert(ks[ks.len() - 1].version@ =~= v && !ks[ks.len() - 1].yanked);
            } else {
                assert(version_views(not_yanked(ks.drop_last()))[w] == v);
                assert(version_views(not_yanked(ks.drop_last())).contains(v));
                let j = choose|j: int|
                    0 <= j < ks.drop_last().len() && !(#[trigger] ks.drop_last()[j]).yanked
                        && ks.drop_last()[j].version@ =~= v;
                assert(ks[j] == ks.drop_last()[j]);
            }
        }
    }
}

} // verus!

verus! {

/// Change-detector idempotence: the verdict is a function of the crate's
/// version, the known published versions and the artifact bytes alone, so
/// detecting twice on an unchanged source yields the same verdict.
pub proof fn lemma_change_detection_stable(
    current: VersionView,
    known: Option<Seq<CratesIoCrateVersion>>,
    local: Seq<u8>,
    registry: Option<Seq<u8>>,
    r1: bool,
    r2: bool,
)
    requires
        r1 == spec_needs_publishing(current, known, local, registry),
        r2 == spec_needs_publishing(current, known, local, registry),
    ensures
        r1 == r2,
{
}

/// A registry artifact byte-identical to the locally packaged one, for a
/// version the registry knows un-yanked, means up-to-date.
pub proof fn lemma_matching_artifact_is_up_to_date(
    current: VersionView,
    known: Option<Seq<CratesIoCrateVersion>>,
    local: Seq<u8>,
)
    requires
        match known {
            Some(ks) => version_views(not_yanked(ks)).contains(current),
            None => true,
        },
    ensures
        !spec_needs_publishing(current, known, local, Some(local)),
{
}

} // verus!

verus! {

/// The distinct path-based dependency names found in the manifest's
/// tables of one kind, across targets.
pub open spec fn manifest_path_dep_names(m: ManifestView, kind: CrateDependencyKey) -> Set<
    Seq<char>,
> {
    Set::new(
        |n: Seq<char>|
            exists|s: int, i: int|
                0 <= s < m.sections.len() && (#[trigger] m.sections[s]).kind == kind && 0 <= i
                    < m.sections[s].entries.len() && entry_is_path_dep(
                    #[trigger] m.sections[s].entries[i],
                ) && entry_logical_name(m.sections[s].entries[i]) == n,
    )
}

impl CrateDetails {
    /// Read a package record straight from a manifest: its name and
    /// version from the package table, and for each dependency kind the
    /// path-based entries' package names. The record's filesystem fields
    /// stay empty; the caller knows where the manifest came from.
    pub fn load_from_manifest(manifest: &Manifest) -> (r: Result<CrateDetails, ManifestError>)
        ensures
            match r {
                Ok(c) => {
                    &&& c.name@ == manifest@.package_name
                    &&& c.wf()
                    &&& str_views(c.deps@).to_set() =~= manifest_path_dep_names(
                        manifest@,
                        CrateDependencyKey::Dependencies,
                    )
                    &&& str_views(c.dev_deps@).to_set() =~= manifest_path_dep_names(
                        manifest@,
                        CrateDependencyKey::DevDependencies,
                    )
                    &&& str_views(c.build_deps@).to_set() =~= manifest_path_dep_names(
                        manifest@,
                        CrateDependencyKey::BuildDependencies,
                    )
                    &&& c.should_be_published
                    &&& match crate::version::semver_components(manifest@.version) {
                        Some(comps) => c.version@.major == comps.0 as int && c.version@.minor
                            == comps.1 as int && c.version@.patch == comps.2 as int,
                        None => false,
                    }
                    &&& sections_path_clean(manifest@.sections)
                },
                Err(ManifestError::VersionNotParsable(raw)) => raw@ == manifest@.version
                    && match crate::version::semver_components(manifest@.version) {
                    None => true,
                    Some(c) => !crate::version::valid_pre_segments_str(c.3)
                        || !crate::version::valid_build_segments_str(c.4),
                },
                Err(ManifestError::PathNotString(k)) => exists|s: int, i: int|
                    0 <= s < manifest@.sections.len() && 0 <= i < (#[trigger] manifest@.sections[s]).entries.len()
                        && entry_path_broken(#[trigger] manifest@.sections[s].entries[i])
                        && manifest@.sections[s].entries[i].key == k@,
                Err(ManifestError::PackageNotString(k)) => exists|s: int, i: int|
                    0 <= s < manifest@.sections.len() && 0 <= i < (#[trigger] manifest@.sections[s]).entries.len()
                        && entry_package_broken(#[trigger] manifest@.sections[s].entries[i])
                        && manifest@.sections[s].entries[i].key == k@,
                Err(_) => false,
            },
    {
        let version = match crate::version::parse_version(manifest.version.as_str()) {
            Some(v) => v,
            None => {
                return Err(
                    ManifestError::VersionNotParsable(clone_string(&manifest.version)),
                );
            },
        };
        let deps = match collect_manifest_path_deps(manifest, CrateDependencyKey::Dependencies) {
            Ok(v) => v,
            Err(e) => {
                return Err(e);
            },
        };
        let dev_deps = match collect_manifest_path_deps(
            manifest,
            CrateDependencyKey::DevDependencies,
        ) {
            Ok(v) => v,
            Err(e) => {
                return Err(e);
            },
        };
        let build_deps = match collect_manifest_path_deps(
            manifest,
            CrateDependencyKey::BuildDependencies,
        ) {
            Ok(v) => v,
            Err(e) => {
                return Err(e);
            },
        };
        Ok(
            CrateDetails {
                name: clone_string(&manifest.package_name),
                version,
                deps,
                dev_deps,
                build_deps,
                should_be_published: true,
                manifest_path: String::new(),
                readme: clone_opt_string(&manifest.readme),
                description: clone_opt_string(&manifest.description),
            },
        )
    }
}

/// No entry of any dependency table carries a non-string `path`, and no
/// path-based entry carries a non-string `package`.
pub open spec fn sections_path_clean(secs: Seq<DepSectionView>) -> bool {
    forall|s: int, i: int|
        0 <= s < secs.len() && 0 <= i < (#[trigger] secs[s]).entries.len() ==> !entry_path_broken(
            #[trigger] secs[s].entries[i],
        ) && (entry_is_path_dep(secs[s].entries[i]) ==> !entry_package_broken(
            secs[s].entries[i],
        ))
}

/// Collect the distinct path-based dependency names of one kind from
/// every matching table of the manifest.
#[verifier::rlimit(100)]
fn collect_manifest_path_deps(manifest: &Manifest, kind: CrateDependencyKey) -> (r: Result<
    Vec<String>,
    ManifestError,
>)
    ensures
        match r {
            Ok(v) => {
                &&& names_distinct(str_views(v@))
                &&& str_views(v@).to_set() =~= manifest_path_dep_names(manifest@, kind)
                &&& forall|s: int, i: int|
                    0 <= s < manifest@.sections.len() && (#[trigger] manifest@.sections[s]).kind
                        == kind && 0 <= i < manifest@.sections[s].entries.len()
                        ==> !entry_path_broken(#[trigger] manifest@.sections[s].entries[i]) && (
                    entry_is_path_dep(manifest@.sections[s].entries[i])
                        ==> !entry_package_broken(manifest@.sections[s].entries[i]))
            },
            Err(ManifestError::PathNotString(k)) => exists|s: int, i: int|
                0 <= s < manifest@.sections.len() && (#[trigger] manifest@.sections[s]).kind
                    == kind && 0 <= i < manifest@.sections[s].entries.len() && entry_path_broken(
                    #[trigger] manifest@.sections[s].entries[i],
                ) && manifest@.sections[s].entries[i].key == k@,
            Err(ManifestError::PackageNotString(k)) => exists|s: int, i: int|
                0 <= s < manifest@.sections.len() && (#[trigger] manifest@.sections[s]).kind
                    == kind && 0 <= i < manifest@.sections[s].entries.len()
                    && entry_package_broken(#[trigger] manifest@.sections[s].entries[i])
                    && manifest@.sections[s].entries[i].key == k@,
            Err(_) => false,
        },
{
    let ghost mv = manifest@;
    let n = manifest.sections.len();
    let mut out: Vec<String> = Vec::new();
    let mut s: usize = 0;
    while s < n
        invariant
            mv == manifest@,
            n == manifest.sections@.len(),
            0 <= s <= n,
            names_distinct(str_views(out@)),
            forall|s0: int, i: int|
                0 <= s0 < s && (#[trigger] mv.sections[s0]).kind == kind && 0 <= i
                    < mv.sections[s0].entries.len() ==> !entry_path_broken(
                    #[trigger] mv.sections[s0].entries[i],
                ) && (entry_is_path_dep(mv.sections[s0].entries[i]) ==> !entry_package_broken(
                    mv.sections[s0].entries[i],
                )),
            forall|nm: Seq<char>|
                str_views(out@).contains(nm) <==> exists|s0: int, i: int|
                    0 <= s0 < s && (#[trigger] mv.sections[s0]).kind == kind && 0 <= i
                        < mv.sections[s0].entries.len() && entry_is_path_dep(
                        #[trigger] mv.sections[s0].entries[i],
                    ) && entry_logical_name(mv.sections[s0].entries[i]) == nm,
        decreases n - s,
    {
        let ghost pre = out@;
        let section = &manifest.sections[s];
        let matches_kind = kind_key_eq(section.kind, kind);
        if matches_kind {
            let names = match crate::dependencies::filter_workspace_dependencies(
                &section.entries,
            ) {
                Ok(names) => names,
                Err(e) => {
                    proof {
                        // The offending entry sits in this matching
                        // section; lift its witness to the manifest view.
                        match &e {
                            ManifestError::PathNotString(k) => {
                                let i = choose|i: int|
                                    0 <= i < section.entries@.len() && entry_path_broken(
                                        #[trigger] section.entries@[i]@,
                                    ) && section.entries@[i]@.key == k@;
                                assert(mv.sections[s as int].entries[i]
                                    == section.entries@[i]@);
                            },
                            ManifestError::PackageNotString(k) => {
                                let i = choose|i: int|
                                    0 <= i < section.entries@.len() && entry_package_broken(
                                        #[trigger] section.entries@[i]@,
                                    ) && section.entries@[i]@.key == k@;
                                assert(mv.sections[s as int].entries[i]
                                    == section.entries@[i]@);
                            },
                            _ => {},
                        }
                    }
                    return Err(e);
                },
            };
            out = merge_names(out, &names);
            proof {
                assert forall|nm: Seq<char>|
                    str_views(out@).contains(nm) <==> exists|s0: int, i: int|
                        0 <= s0 < s + 1 && (#[trigger] mv.sections[s0]).kind == kind && 0 <= i
                            < mv.sections[s0].entries.len() && entry_is_path_dep(
                            #[trigger] mv.sections[s0].entries[i],
                        ) && entry_logical_name(mv.sections[s0].entries[i]) == nm by {
                    if str_views(out@).contains(nm) {
                        if str_views(pre).contains(nm) {
                            let (s0, i) = choose|s0: int, i: int|
                                0 <= s0 < s && (#[trigger] mv.sections[s0]).kind == kind && 0 <= i
                                    < mv.sections[s0].entries.len() && entry_is_path_dep(
                                    #[trigger] mv.sections[s0].entries[i],
                                ) && entry_logical_name(mv.sections[s0].entries[i]) == nm;
                            assert(0 <= s0 < s + 1 && mv.sections[s0].kind == kind && 0 <= i
                                < mv.sections[s0].entries.len() && entry_is_path_dep(
                                mv.sections[s0].entries[i],
                            ) && entry_logical_name(mv.sections[s0].entries[i]) == nm);
                        } else {
                            assert(str_views(names@).contains(nm));
                            let e = choose|e: int|
                                0 <= e < section.entries@.len() && entry_is_path_dep(
                                    #[trigger] section.entries@[e]@,
                                ) && entry_logical_name(section.entries@[e]@) == nm;
                            assert(mv.sections[s as int].entries[e] == section.entries@[e]@);
                            assert(mv.sections[s as int].kind == kind && 0 <= e
                                < mv.sections[s as int].entries.len() && entry_is_path_dep(
                                mv.sections[s as int].entries[e],
                            ) && entry_logical_name(mv.sections[s as int].entries[e]) == nm);
                        }
                    }
                    if exists|s0: int, i: int|
                        0 <= s0 < s + 1 && (#[trigger] mv.sections[s0]).kind == kind && 0 <= i
                            < mv.sections[s0].entries.len() && entry_is_path_dep(
                            #[trigger] mv.sections[s0].entries[i],
                        ) && entry_logical_name(mv.sections[s0].entries[i]) == nm {
                        let (s0, i) = choose|s0: int, i: int|
                            0 <= s0 < s + 1 && (#[trigger] mv.sections[s0]).kind == kind && 0 <= i
                                < mv.sections[s0].entries.len() && entry_is_path_dep(
                                #[trigger] mv.sections[s0].entries[i],
                            ) && entry_logical_name(mv.sections[s0].entries[i]) == nm;
                        if s0 < s {
                            assert(str_views(pre).contains(nm));
                        } else {
                            assert(mv.sections[s as int].entries[i] == section.entries@[i]@);
                            assert(entry_is_path_dep(section.entries@[i]@) && entry_logical_name(
                                section.entries@[i]@,
                            ) == nm);
                            assert(str_views(names@).contains(nm));
                        }
                    }
                }
            }
        } else {
            proof {
                assert forall|nm: Seq<char>|
                    str_views(out@).contains(nm) <==> exists|s0: int, i: int|
                        0 <= s0 < s + 1 && (#[trigger] mv.sections[s0]).kind == kind && 0 <= i
                            < mv.sections[s0].entries.len() && entry_is_path_dep(
                            #[trigger] mv.sections[s0].entries[i],
                        ) && entry_logical_name(mv.sections[s0].entries[i]) == nm by {
                    if exists|s0: int, i: int|
                        0 <= s0 < s + 1 && (#[trigger] mv.sections[s0]).kind == kind && 0 <= i
                            < mv.sections[s0].entries.len() && entry_is_path_dep(
                            #[trigger] mv.sections[s0].entries[i],
                        ) && entry_logical_name(mv.sections[s0].entries[i]) == nm {
                        let (s0, i) = choose|s0: int, i: int|
                            0 <= s0 < s + 1 && (#[trigger] mv.sections[s0]).kind == kind && 0 <= i
                                < mv.sections[s0].entries.len() && entry_is_path_dep(
                                #[trigger] mv.sections[s0].entries[i],
                            ) && entry_logical_name(mv.sections[s0].entries[i]) == nm;
                        assert(s0 != s);
                    }
                }
            }
        }
        proof {
            assert forall|s0: int, i: int|
                0 <= s0 < s + 1 && (#[trigger] mv.sections[s0]).kind == kind && 0 <= i
                    < mv.sections[s0].entries.len() implies !entry_path_broken(
                #[trigger] mv.sections[s0].entries[i],
            ) && (entry_is_path_dep(mv.sections[s0].entries[i]) ==> !entry_package_broken(
                mv.sections[s0].entries[i],
            )) by {
                if s0 == s as int {
                    assert(matches_kind);
                    assert(mv.sections[s as int].entries[i]
                        == manifest.sections@[s as int].entries@[i]@);
                }
            }
        }
        s += 1;
    }
    proof {
        assert(str_views(out@).to_set() =~= manifest_path_dep_names(mv, kind));
    }
    Ok(out)
}

/// The merged list holds exactly the base names and the first `i` of the
/// incoming names.
spec fn merged_upto(out: Seq<Seq<char>>, base: Seq<Seq<char>>, nv: Seq<Seq<char>>, i: int) -> bool {
    forall|x: Seq<char>| out.contains(x) <==> (base.contains(x) || nv.take(i).contains(x))
}

/// Extend a distinct name list with the unseen entries of another list.
fn merge_names(acc: Vec<String>, names: &Vec<String>) -> (r: Vec<String>)
    requires
        names_distinct(str_views(acc@)),
    ensures
        names_distinct(str_views(r@)),
        forall|x: Seq<char>|
            str_views(r@).contains(x) <==> (str_views(acc@).contains(x) || str_views(
                names@,
            ).contains(x)),
{
    let ghost base = acc@;
    let ghost nv = str_views(names@);
    let mut out = acc;
    let m = names.len();
    let mut i: usize = 0;
    proof {
        assert(nv.take(0) =~= Seq::<Seq<char>>::empty());
    }
    while i < m
        invariant
            nv == str_views(names@),
            m == names@.len(),
            0 <= i <= m,
            names_distinct(str_views(out@)),
            merged_upto(str_views(out@), str_views(base), nv, i as int),
        decreases m - i,
    {
        let ghost mid = out@;
        let ghost nm = nv[i as int];
        if !contains_name(&out, names[i].as_str()) {
            out.push(clone_string(&names[i]));
            proof {
                assert(str_views(out@) =~= str_views(mid).push(nm));
                assert forall|a: int, b: int|
                    0 <= a < b < str_views(out@).len() implies str_views(out@)[a] != str_views(
                    out@,
                )[b] by {
                    if b == str_views(out@).len() - 1 {
                        assert(!str_views(mid).contains(nm));
                        assert(str_views(out@)[a] == str_views(mid)[a]);
                    } else {
                        assert(str_views(out@)[a] == str_views(mid)[a]);
                        assert(str_views(out@)[b] == str_views(mid)[b]);
                    }
                }
            }
        }
        proof {
            assert(nv.take(i + 1) =~= nv.take(i as int).push(nm));
            assert(merged_upto(str_views(out@), str_views(base), nv, i as int + 1)) by {
            assert forall|x: Seq<char>|
                str_views(out@).contains(x) <==> (str_views(base).contains(x) || nv.take(
                    i as int + 1,
                ).contains(x)) by {
                if str_views(out@).contains(x) {
                    let w = choose|w: int|
                        0 <= w < str_views(out@).len() && str_views(out@)[w] == x;
                    if w < mid.len() {
                        assert(str_views(mid)[w] == x);
                        assert(str_views(mid).contains(x));
                        if !str_views(base).contains(x) {
                            assert(nv.take(i as int).contains(x));
                            let v = choose|v: int| 0 <= v < i && nv.take(i as int)[v] == x;
                            assert(nv.take(i as int + 1)[v] == x);
                        }
                    } else {
                        assert(x == nm);
                        assert(nv.take(i as int + 1).last() == x);
                    }
                }
                if str_views(base).contains(x) || nv.take(i as int + 1).contains(x) {
                    if str_views(mid).contains(x) {
                        let w = choose|w: int|
                            0 <= w < str_views(mid).len() && str_views(mid)[w] == x;
                        assert(str_views(out@)[w] == x);
                    } else {
                        if str_views(base).contains(x) {
                            assert(str_views(mid).contains(x));
                            assert(false);
                        }
                        let v = choose|v: int|
                            0 <= v <= i as int && #[trigger] nv.take(i as int + 1)[v] == x;
                        if v < i {
                            assert(nv.take(i as int)[v] == x);
                            assert(str_views(mid).contains(x));
                            assert(false);
                        }
                        assert(x == nm);
                        assert(str_views(out@).last() == nm);
                    }
                }
            }
            }
        }
        i += 1;
    }
    proof {
        assert(nv.take(m as int) =~= nv);
        assert(merged_upto(str_views(out@), str_views(base), nv, m as int));
    }
    out
}

/// Whether two dependency table kinds are the same.
fn kind_key_eq(a: CrateDependencyKey, b: CrateDependencyKey) -> (r: bool)
    ensures
        r == (a == b),
{
    match (a, b) {
        (CrateDependencyKey::BuildDependencies, CrateDependencyKey::BuildDependencies) => true,
        (CrateDependencyKey::Dependencies, CrateDependencyKey::Dependencies) => true,
        (CrateDependencyKey::DevDependencies, CrateDependencyKey::DevDependencies) => true,
        _ => false,
    }
}

} // verus!
