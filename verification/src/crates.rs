//! The workspace: every package record keyed by name, the integrity checks
//! made at load time, and transitive dependency closures over the
//! publish-relevant graph.

use vstd::prelude::*;

use crate::crate_details::{clone_string, contains_name, CrateDetails, PackageMeta};
use crate::order::crate_names;
use crate::text::{str_eq, str_views};

verus! {

/// There is a crate named `a` whose publish-relevant dependencies include
/// `b`.
pub open spec fn dep_edge(details: Seq<CrateDetails>, a: Seq<char>, b: Seq<char>) -> bool {
    exists|k: int|
        0 <= k < details.len() && (#[trigger] details[k]).name@ == a
            && details[k].spec_deps().contains(b)
}

/// `p` walks the publish-relevant dependency graph edge by edge.
pub open spec fn is_dep_path(details: Seq<CrateDetails>, p: Seq<Seq<char>>) -> bool {
    p.len() >= 1 && forall|i: int|
        0 <= i < p.len() - 1 ==> dep_edge(details, #[trigger] p[i], p[i + 1])
}

/// `b` lies in the transitive publish-relevant dependency set of `a`
/// (reflexively: every name reaches itself).
pub open spec fn reaches(details: Seq<CrateDetails>, a: Seq<char>, b: Seq<char>) -> bool {
    exists|p: Seq<Seq<char>>| is_dep_path(details, p) && p.first() == a && p.last() == b
}

/// A step extends reachability by one edge.
pub proof fn lemma_reaches_step(
    details: Seq<CrateDetails>,
    a: Seq<char>,
    b: Seq<char>,
    c: Seq<char>,
)
    requires
        reaches(details, a, b),
        dep_edge(details, b, c),
    ensures
        reaches(details, a, c),
{
    let p = choose|p: Seq<Seq<char>>|
        is_dep_path(details, p) && p.first() == a && p.last() == b;
    let q = p.push(c);
    assert forall|i: int| 0 <= i < q.len() - 1 implies dep_edge(details, #[trigger] q[i], q[i + 1]) by {
        if i < p.len() - 1 {
            assert(q[i] == p[i] && q[i + 1] == p[i + 1]);
        } else {
            assert(q[i] == p.last() && q[i + 1] == c);
        }
    }
    assert(is_dep_path(details, q) && q.first() == a && q.last() == c);
}

/// Every name reaches itself.
pub proof fn lemma_reaches_self(details: Seq<CrateDetails>, a: Seq<char>)
    ensures
        reaches(details, a, a),
{
    let p = seq![a];
    assert(is_dep_path(details, p) && p.first() == a && p.last() == a);
}

/// The set of names `s` is closed under publish-relevant dependencies.
pub open spec fn dep_closed(details: Seq<CrateDetails>, s: Seq<Seq<char>>) -> bool {
    forall|k: int, d: int|
        0 <= k < details.len() && s.contains((#[trigger] details[k]).name@) && 0 <= d
            < details[k].spec_deps().len() ==> s.contains(#[trigger] details[k].spec_deps()[d])
}

/// A dependency path starting inside a dependency-closed set stays inside
/// it.
pub proof fn lemma_closed_set_catches_paths(
    details: Seq<CrateDetails>,
    s: Seq<Seq<char>>,
    p: Seq<Seq<char>>,
)
    requires
        dep_closed(details, s),
        is_dep_path(details, p),
        s.contains(p.first()),
    ensures
        s.contains(p.last()),
    decreases p.len(),
{
    if p.len() > 1 {
        assert(dep_edge(details, p[0], p[1]));
        let k = choose|k: int|
            0 <= k < details.len() && (#[trigger] details[k]).name@ == p[0]
                && details[k].spec_deps().contains(p[1]);
        let d = choose|d: int|
            0 <= d < details[k].spec_deps().len() && details[k].spec_deps()[d] == p[1];
        assert(s.contains(details[k].spec_deps()[d]));
        let q = p.drop_first();
        assert forall|i: int| 0 <= i < q.len() - 1 implies dep_edge(details, #[trigger] q[i], q[i + 1]) by {
            assert(q[i] == p[i + 1] && q[i + 1] == p[i + 2]);
            assert(dep_edge(details, p[i + 1], p[i + 2]));
        }
        lemma_closed_set_catches_paths(details, s, q);
    }
}

/// A loading failure: the workspace is not usable as given.
#[derive(Debug)]
pub enum WorkspaceError {
    /// Two workspace manifests declare this package name.
    DuplicatePackage(String),
    /// The named crate has this publish-relevant dependency, which is not
    /// a workspace member.
    MissingWorkspaceMember(String, String),
}

/// The workspace: its root path and one record per member crate.
pub struct Crates {
    pub root: String,
    pub crates_map: Vec<CrateDetails>,
}

impl Crates {
    /// Names are unique, every record's dependency lists are distinct, and
    /// every publish-relevant dependency is itself a member.
    pub open spec fn wf(&self) -> bool {
        &&& crate_names(self.crates_map@).no_duplicates()
        &&& forall|k: int|
            0 <= k < self.crates_map@.len() ==> (#[trigger] self.crates_map@[k]).wf()
        &&& forall|k: int, d: int|
            0 <= k < self.crates_map@.len() && 0 <= d
                < self.crates_map@[k].spec_deps().len() ==> crate_names(self.crates_map@).contains(
                #[trigger] self.crates_map@[k].spec_deps()[d],
            )
    }

    /// Find a member by name.
    pub fn get(&self, name: &str) -> (r: Option<&CrateDetails>)
        ensures
            match r {
                Some(c) => exists|k: int|
                    0 <= k < self.crates_map@.len() && self.crates_map@[k] == *c && c.name@
                        == name@,
                None => !crate_names(self.crates_map@).contains(name@),
            },
    {
        let n = self.crates_map.len();
        let mut i: usize = 0;
        while i < n
            invariant
                n == self.crates_map@.len(),
                0 <= i <= n,
                forall|k: int| 0 <= k < i ==> crate_names(self.crates_map@)[k] != name@,
            decreases n - i,
        {
            if str_eq(self.crates_map[i].name.as_str(), name) {
                proof {
                    assert(crate_names(self.crates_map@)[i as int] == name@);
                }
                return Some(&self.crates_map[i]);
            }
            proof {
                assert(crate_names(self.crates_map@)[i as int] == self.crates_map@[i as int].name@);
            }
            i += 1;
        }
        proof {
            assert forall|k: int|
                0 <= k < crate_names(self.crates_map@).len() implies crate_names(
                self.crates_map@,
            )[k] != name@ by {}
        }
        None
    }

    /// Build the workspace from the loader's package reports: load each
    /// record, reject a duplicated package name, and reject a
    /// publish-relevant dependency that is not a workspace member.
    pub fn load_workspace_crates(root: String, packages: &Vec<PackageMeta>) -> (r: Result<
        Crates,
        WorkspaceError,
    >)
        ensures
            match r {
                Ok(c) => {
                    &&& c.wf()
                    &&& c.root@ == root@
                    &&& c.crates_map@.len() == packages@.len()
                    &&& forall|i: int|
                        0 <= i < packages@.len() ==> (#[trigger] c.crates_map@[i]).name@
                            == packages@[i].name@ && c.crates_map@[i].version@
                            == packages@[i].version@
                },
                Err(WorkspaceError::DuplicatePackage(n)) => exists|i: int, j: int|
                    0 <= i < j < packages@.len() && (#[trigger] packages@[i].name@) == (
                    #[trigger] packages@[j].name@) && packages@[j].name@ == n@,
                Err(WorkspaceError::MissingWorkspaceMember(c, d)) => {
                    &&& exists|k: int|
                        0 <= k < packages@.len() && (#[trigger] packages@[k].name@) == c@
                            && crate::crate_details::spec_path_dep_names(
                            packages@[k].dependencies@,
                            crate::crate_details::DependencyKind::Normal,
                        ).contains(d@)
                    &&& forall|j: int| 0 <= j < packages@.len() ==> (#[trigger] packages@[j].name@) != d@
                },
            },
    {
        let n = packages.len();
        let mut crates_map: Vec<CrateDetails> = Vec::new();
        let mut i: usize = 0;
        while i < n
            invariant
                n == packages@.len(),
                0 <= i <= n,
                crates_map@.len() == i,
                forall|k: int|
                    0 <= k < i ==> (#[trigger] crates_map@[k]).name@ == packages@[k].name@
                        && crates_map@[k].version@ == packages@[k].version@ && crates_map@[k].wf(),
                forall|k: int|
                    0 <= k < i ==> str_views((#[trigger] crates_map@[k]).deps@).to_set()
                        =~= crate::crate_details::spec_path_dep_names(
                        packages@[k].dependencies@,
                        crate::crate_details::DependencyKind::Normal,
                    ),
                crate_names(crates_map@).no_duplicates(),
            decreases n - i,
        {
            let details = CrateDetails::load(&packages[i]);
            if let Some(_existing) = find_by_name(&crates_map, details.name.as_str()) {
                proof {
                    let w = choose|w: int|
                        0 <= w < crates_map@.len() && crate_names(crates_map@)[w] == details.name@;
                    assert(packages@[w].name@ == packages@[i as int].name@);
                }
                return Err(WorkspaceError::DuplicatePackage(details.name));
            }
            let ghost pre = crates_map@;
            crates_map.push(details);
            proof {
                assert(crate_names(crates_map@) =~= crate_names(pre).push(
                    packages@[i as int].name@,
                ));
                assert forall|a: int, b: int|
                    0 <= a < b < crate_names(crates_map@).len() implies crate_names(
                    crates_map@,
                )[a] != crate_names(crates_map@)[b] by {
                    if b == crate_names(crates_map@).len() - 1 {
                        assert(!crate_names(pre).contains(packages@[i as int].name@));
                        assert(crate_names(crates_map@)[a] == crate_names(pre)[a]);
                    } else {
                        assert(crate_names(crates_map@)[a] == crate_names(pre)[a]);
                        assert(crate_names(crates_map@)[b] == crate_names(pre)[b]);
                    }
                }
            }
            i += 1;
        }
        // Every publish-relevant dependency must be a member.
        let mut k: usize = 0;
        while k < n
            invariant
                n == packages@.len(),
                crates_map@.len() == n,
                0 <= k <= n,
                forall|k0: int|
                    0 <= k0 < n ==> (#[trigger] crates_map@[k0]).name@ == packages@[k0].name@
                        && crates_map@[k0].version@ == packages@[k0].version@ && crates_map@[k0].wf(),
                forall|k0: int|
                    0 <= k0 < n ==> str_views((#[trigger] crates_map@[k0]).deps@).to_set()
                        =~= crate::crate_details::spec_path_dep_names(
                        packages@[k0].dependencies@,
                        crate::crate_details::DependencyKind::Normal,
                    ),
                crate_names(crates_map@).no_duplicates(),
                forall|k0: int, d: int|
                    0 <= k0 < k && 0 <= d < crates_map@[k0].spec_deps().len() ==> crate_names(
                        crates_map@,
                    ).contains(#[trigger] crates_map@[k0].spec_deps()[d]),
            decreases n - k,
        {
            let deps_len = crates_map[k].deps.len();
            let mut d: usize = 0;
            while d < deps_len
                invariant
                    n == packages@.len(),
                    crates_map@.len() == n,
                    0 <= k < n,
                    deps_len == crates_map@[k as int].deps@.len(),
                    0 <= d <= deps_len,
                    forall|k0: int|
                        0 <= k0 < n ==> (#[trigger] crates_map@[k0]).name@ == packages@[k0].name@,
                    str_views(crates_map@[k as int].deps@).to_set()
                        =~= crate::crate_details::spec_path_dep_names(
                        packages@[k as int].dependencies@,
                        crate::crate_details::DependencyKind::Normal,
                    ),
                    forall|d0: int|
                        0 <= d0 < d ==> crate_names(crates_map@).contains(
                            #[trigger] crates_map@[k as int].spec_deps()[d0],
                        ),
                decreases deps_len - d,
            {
                let dep_missing = {
                    let dep = &crates_map[k].deps[d];
                    find_by_name(&crates_map, dep.as_str()).is_none()
                };
                if dep_missing {
                    let crate_name = clone_string(&crates_map[k].name);
                    let dep_name = clone_string(&crates_map[k].deps[d]);
                    proof {
                        assert(packages@[k as int].name@ == crate_name@);
                        // The dependency really is a publish-relevant path
                        // dependency of that package.
                        assert(str_views(crates_map@[k as int].deps@)[d as int] == dep_name@);
                        assert(str_views(crates_map@[k as int].deps@).contains(dep_name@));
                        assert(str_views(crates_map@[k as int].deps@).to_set().contains(dep_name@));
                        // And no package bears its name.
                        assert forall|j: int|
                            0 <= j < packages@.len() implies (#[trigger] packages@[j].name@)
                            != dep_name@ by {
                            assert(crate_names(crates_map@)[j] == crates_map@[j].name@);
                            if packages@[j].name@ == dep_name@ {
                                assert(crate_names(crates_map@).contains(dep_name@));
                            }
                        }
                    }
                    return Err(WorkspaceError::MissingWorkspaceMember(crate_name, dep_name));
                }
                proof {
                    assert(crates_map@[k as int].spec_deps()[d as int] == crates_map@[k as int].deps@[d as int]@);
                }
                d += 1;
            }
            k += 1;
        }
        Ok(Crates { root, crates_map })
    }
}

/// Find the index of the member with the given name.
fn find_by_name(crates_map: &Vec<CrateDetails>, name: &str) -> (r: Option<usize>)
    ensures
        match r {
            Some(i) => i < crates_map@.len() && crate_names(crates_map@)[i as int] == name@,
            None => !crate_names(crates_map@).contains(name@),
        },
{
    let n = crates_map.len();
    let mut i: usize = 0;
    while i < n
        invariant
            n == crates_map@.len(),
            0 <= i <= n,
            forall|k: int| 0 <= k < i ==> crate_names(crates_map@)[k] != name@,
        decreases n - i,
    {
        if str_eq(crates_map[i].name.as_str(), name) {
            proof {
                assert(crate_names(crates_map@)[i as int] == name@);
            }
            return Some(i);
        }
        proof {
            assert(crate_names(crates_map@)[i as int] == crates_map@[i as int].name@);
        }
        i += 1;
    }
    proof {
        assert forall|k: int|
            0 <= k < crate_names(crates_map@).len() implies crate_names(crates_map@)[k]
            != name@ by {}
    }
    None
}

} // verus!

verus! {

/// The transitive publish-relevant dependency set of `seed`, the seed
/// included: a name is in the result exactly when `seed` reaches it.
pub fn dep_closure(details: &Vec<CrateDetails>, seed: &String) -> (r: Vec<String>)
    requires
        crate_names(details@).no_duplicates(),
        forall|k: int, d: int|
            0 <= k < details@.len() && 0 <= d < details@[k].spec_deps().len() ==> crate_names(
                details@,
            ).contains(#[trigger] details@[k].spec_deps()[d]),
    ensures
        str_views(r@).no_duplicates(),
        forall|n: Seq<char>| str_views(r@).contains(n) <==> reaches(details@, seed@, n),
{
    let n = details.len();
    let mut result: Vec<String> = Vec::new();
    result.push(clone_string(seed));
    proof {
        assert(str_views(result@) =~= seq![seed@]);
        assert(str_views(result@)[0] == seed@);
        assert(str_views(result@).contains(seed@));
        lemma_reaches_self(details@, seed@);
    }
    loop
        invariant
            n == details@.len(),
            str_views(result@).no_duplicates(),
            str_views(result@).contains(seed@),
            forall|i: int| 0 <= i < result@.len() ==> reaches(details@, seed@, #[trigger] str_views(result@)[i]),
            forall|i: int|
                0 <= i < result@.len() ==> crate_names(details@).contains(
                    #[trigger] str_views(result@)[i],
                ) || str_views(result@)[i] == seed@,
            forall|k: int, d: int|
                0 <= k < details@.len() && 0 <= d < details@[k].spec_deps().len() ==> crate_names(
                    details@,
                ).contains(#[trigger] details@[k].spec_deps()[d]),
            result@.len() <= n + 1,
        ensures
            str_views(result@).no_duplicates(),
            str_views(result@).contains(seed@),
            forall|i: int| 0 <= i < result@.len() ==> reaches(details@, seed@, #[trigger] str_views(result@)[i]),
            dep_closed(details@, str_views(result@)),
        decreases n + 1 - result@.len(),
    {
        let ghost start_len = result@.len();
        let mut progressed = false;
        let mut k: usize = 0;
        while k < n
            invariant
                n == details@.len(),
                0 <= k <= n,
                str_views(result@).no_duplicates(),
                str_views(result@).contains(seed@),
                forall|i: int| 0 <= i < result@.len() ==> reaches(details@, seed@, #[trigger] str_views(result@)[i]),
                forall|i: int|
                    0 <= i < result@.len() ==> crate_names(details@).contains(
                        #[trigger] str_views(result@)[i],
                    ) || str_views(result@)[i] == seed@,
                forall|k0: int, d: int|
                    0 <= k0 < details@.len() && 0 <= d
                        < details@[k0].spec_deps().len() ==> crate_names(details@).contains(
                        #[trigger] details@[k0].spec_deps()[d],
                    ),
                result@.len() <= n + 1,
                result@.len() >= start_len,
                progressed ==> result@.len() > start_len,
                !progressed ==> (forall|k0: int, d: int|
                    0 <= k0 < k && str_views(result@).contains((#[trigger] details@[k0]).name@)
                        && 0 <= d < details@[k0].spec_deps().len() ==> str_views(result@).contains(
                        #[trigger] details@[k0].spec_deps()[d],
                    )),
            decreases n - k,
        {
            let member = contains_name(&result, details[k].name.as_str());
            if member {
                let deps_len = details[k].deps.len();
                let mut d: usize = 0;
                while d < deps_len
                    invariant
                        n == details@.len(),
                        0 <= k < n,
                        deps_len == details@[k as int].deps@.len(),
                        0 <= d <= deps_len,
                        str_views(result@).no_duplicates(),
                        str_views(result@).contains(seed@),
                        str_views(result@).contains(details@[k as int].name@),
                        forall|i: int| 0 <= i < result@.len() ==> reaches(details@, seed@, #[trigger] str_views(result@)[i]),
                        forall|i: int|
                            0 <= i < result@.len() ==> crate_names(details@).contains(
                                #[trigger] str_views(result@)[i],
                            ) || str_views(result@)[i] == seed@,
                        forall|k0: int, d0: int|
                            0 <= k0 < details@.len() && 0 <= d0
                                < details@[k0].spec_deps().len() ==> crate_names(details@).contains(
                                #[trigger] details@[k0].spec_deps()[d0],
                            ),
                        result@.len() <= n + 1,
                        result@.len() >= start_len,
                        progressed ==> result@.len() > start_len,
                        !progressed ==> (forall|k0: int, d1: int|
                            0 <= k0 < k && str_views(result@).contains(
                                (#[trigger] details@[k0]).name@,
                            ) && 0 <= d1 < details@[k0].spec_deps().len() ==> str_views(
                                result@,
                            ).contains(#[trigger] details@[k0].spec_deps()[d1])),
                        forall|d0: int|
                            0 <= d0 < d ==> str_views(result@).contains(
                                #[trigger] details@[k as int].spec_deps()[d0],
                            ),
                    decreases deps_len - d,
                {
                    let dep_present = {
                        let dep = &details[k].deps[d];
                        contains_name(&result, dep.as_str())
                    };
                    if !dep_present {
                        let ghost pre = result@;
                        let dep_name = clone_string(&details[k].deps[d]);
                        proof {
                            assert(dep_name@ == details@[k as int].spec_deps()[d as int]);
                        }
                        result.push(dep_name);
                        progressed = true;
                        proof {
                            let nm = details@[k as int].spec_deps()[d as int];
                            assert(str_views(result@) =~= str_views(pre).push(nm));
                            assert forall|a: int, b: int|
                                0 <= a < b < str_views(result@).len() implies str_views(result@)[a]
                                != str_views(result@)[b] by {
                                if b == str_views(result@).len() - 1 {
                                    assert(!str_views(pre).contains(nm));
                                    assert(str_views(result@)[a] == str_views(pre)[a]);
                                } else {
                                    assert(str_views(result@)[a] == str_views(pre)[a]);
                                    assert(str_views(result@)[b] == str_views(pre)[b]);
                                }
                            }
                            // The new name is reachable: through the crate
                            // that lists it as a dependency.
                            assert(reaches(details@, seed@, details@[k as int].name@)) by {
                                let w = choose|w: int|
                                    0 <= w < str_views(pre).len() && str_views(pre)[w]
                                        == details@[k as int].name@;
                                assert(reaches(details@, seed@, str_views(pre)[w]));
                            }
                            assert(dep_edge(details@, details@[k as int].name@, nm)) by {
                                assert(details@[k as int].spec_deps().contains(nm));
                            }
                            lemma_reaches_step(details@, seed@, details@[k as int].name@, nm);
                            assert forall|i: int|
                                0 <= i < result@.len() implies reaches(
                                details@,
                                seed@,
                                #[trigger] str_views(result@)[i],
                            ) by {
                                if i < pre.len() {
                                    assert(str_views(result@)[i] == str_views(pre)[i]);
                                } else {
                                    assert(str_views(result@)[i] == nm);
                                }
                            }
                            assert(str_views(result@).last() == nm);
                            assert(str_views(result@).contains(nm));
                            // The new name is a workspace crate name, since
                            // the workspace's dependency lists are closed.
                            assert(crate_names(details@).contains(nm));
                            assert forall|i: int|
                                0 <= i < result@.len() implies crate_names(details@).contains(
                                #[trigger] str_views(result@)[i],
                            ) || str_views(result@)[i] == seed@ by {
                                if i < pre.len() {
                                    assert(str_views(result@)[i] == str_views(pre)[i]);
                                }
                            }
                            // The result stays within the workspace names
                            // plus the seed, so it stays short enough.
                            lemma_closure_len_bound(details@, str_views(result@), seed@);
                            // The previously seen names survive the push.
                            assert forall|x: Seq<char>| str_views(pre).contains(x) implies str_views(
                                result@,
                            ).contains(x) by {
                                let w = choose|w: int|
                                    0 <= w < str_views(pre).len() && str_views(pre)[w] == x;
                                assert(str_views(result@)[w] == x);
                            }
                        }
                    }
                    d += 1;
                }
            }
            proof {
                if !progressed {
                    assert forall|k0: int, d: int|
                        0 <= k0 < k + 1 && str_views(result@).contains(
                            (#[trigger] details@[k0]).name@,
                        ) && 0 <= d < details@[k0].spec_deps().len() implies str_views(
                        result@,
                    ).contains(#[trigger] details@[k0].spec_deps()[d]) by {
                        if k0 == k as int {
                            assert(member);
                        }
                    }
                }
            }
            k += 1;
        }
        if !progressed {
            proof {
                assert forall|k0: int, d: int|
                    0 <= k0 < details@.len() && str_views(result@).contains(
                        (#[trigger] details@[k0]).name@,
                    ) && 0 <= d < details@[k0].spec_deps().len() implies str_views(result@).contains(
                    #[trigger] details@[k0].spec_deps()[d],
                ) by {}
            }
            break;
        }
    }
    proof {
        assert forall|nm: Seq<char>| reaches(details@, seed@, nm) implies str_views(
            result@,
        ).contains(nm) by {
            let p = choose|p: Seq<Seq<char>>|
                is_dep_path(details@, p) && p.first() == seed@ && p.last() == nm;
            lemma_closed_set_catches_paths(details@, str_views(result@), p);
        }
        assert forall|nm: Seq<char>| str_views(result@).contains(nm) implies reaches(
            details@,
            seed@,
            nm,
        ) by {
            let w = choose|w: int| 0 <= w < str_views(result@).len() && str_views(result@)[w] == nm;
            assert(reaches(details@, seed@, str_views(result@)[w]));
        }
    }
    result
}

/// A distinct name list inside the workspace names plus one seed is no
/// longer than the workspace plus one.
proof fn lemma_closure_len_bound(details: Seq<CrateDetails>, s: Seq<Seq<char>>, seed: Seq<char>)
    requires
        s.no_duplicates(),
        forall|i: int|
            0 <= i < s.len() ==> crate_names(details).contains(#[trigger] s[i]) || s[i] == seed,
    ensures
        s.len() <= details.len() + 1,
{
    let sup = crate_names(details).push(seed);
    assert forall|i: int| 0 <= i < s.len() implies sup.contains(#[trigger] s[i]) by {
        if crate_names(details).contains(s[i]) {
            let w = choose|w: int|
                0 <= w < crate_names(details).len() && crate_names(details)[w] == s[i];
            assert(sup[w] == s[i]);
        } else {
            assert(sup.last() == seed);
        }
    }
    s.unique_seq_to_set();
    sup.lemma_cardinality_of_set();
    assert(s.to_set().subset_of(sup.to_set()));
    vstd::set_lib::lemma_len_subset(s.to_set(), sup.to_set());
}

impl Crates {
    /// Everything that publishing `krate` involves: the publish order
    /// restricted to the crates that `krate` transitively depends on,
    /// `krate` itself included, in the order's own sequence. Fails when
    /// `krate` is not a workspace member.
    pub fn what_needs_publishing(&self, krate: &String, publish_order: &Vec<String>) -> (r: Result<
        Vec<String>,
        WorkspaceError,
    >)
        requires
            self.wf(),
        ensures
            match r {
                Ok(list) => {
                    &&& forall|i: int|
                        0 <= i < list@.len() ==> reaches(
                            self.crates_map@,
                            krate@,
                            #[trigger] str_views(list@)[i],
                        )
                    &&& forall|j: int|
                        0 <= j < publish_order@.len() && reaches(
                            self.crates_map@,
                            krate@,
                            #[trigger] str_views(publish_order@)[j],
                        ) ==> str_views(list@).contains(str_views(publish_order@)[j])
                    &&& is_subsequence(str_views(list@), str_views(publish_order@))
                },
                Err(_) => !crate_names(self.crates_map@).contains(krate@),
            },
    {
        if find_by_name(&self.crates_map, krate.as_str()).is_none() {
            return Err(WorkspaceError::MissingWorkspaceMember(
                clone_string(krate),
                clone_string(krate),
            ));
        }
        let closure = dep_closure(&self.crates_map, krate);
        let n = publish_order.len();
        let mut list: Vec<String> = Vec::new();
        let mut j: usize = 0;
        proof {
            assert(str_views(list@) =~= Seq::<Seq<char>>::empty());
            assert(is_subsequence(str_views(list@), str_views(publish_order@).take(0)));
        }
        while j < n
            invariant
                n == publish_order@.len(),
                0 <= j <= n,
                str_views(closure@).no_duplicates(),
                forall|nm: Seq<char>|
                    str_views(closure@).contains(nm) <==> reaches(self.crates_map@, krate@, nm),
                forall|i: int|
                    0 <= i < list@.len() ==> reaches(
                        self.crates_map@,
                        krate@,
                        #[trigger] str_views(list@)[i],
                    ),
                forall|j0: int|
                    0 <= j0 < j && reaches(
                        self.crates_map@,
                        krate@,
                        #[trigger] str_views(publish_order@)[j0],
                    ) ==> str_views(list@).contains(str_views(publish_order@)[j0]),
                is_subsequence(str_views(list@), str_views(publish_order@).take(j as int)),
            decreases n - j,
        {
            let in_closure = {
                let entry = &publish_order[j];
                contains_name(&closure, entry.as_str())
            };
            let ghost pre = list@;
            if in_closure {
                list.push(clone_string(&publish_order[j]));
                proof {
                    assert(str_views(list@) =~= str_views(pre).push(
                        str_views(publish_order@)[j as int],
                    ));
                }
            }
            proof {
                let nm = str_views(publish_order@)[j as int];
                if in_closure {
                    assert forall|i: int|
                        0 <= i < list@.len() implies reaches(
                        self.crates_map@,
                        krate@,
                        #[trigger] str_views(list@)[i],
                    ) by {
                        if i < pre.len() {
                            assert(str_views(list@)[i] == str_views(pre)[i]);
                        } else {
                            assert(str_views(list@)[i] == nm);
                            assert(str_views(closure@).contains(nm));
                        }
                    }
                    assert forall|j0: int|
                        0 <= j0 < j + 1 && reaches(
                            self.crates_map@,
                            krate@,
                            #[trigger] str_views(publish_order@)[j0],
                        ) implies str_views(list@).contains(str_views(publish_order@)[j0]) by {
                        if j0 == j as int {
                            assert(str_views(list@).last() == nm);
                        } else {
                            assert(str_views(pre).contains(str_views(publish_order@)[j0]));
                            let w = choose|w: int|
                                0 <= w < str_views(pre).len() && str_views(pre)[w] == str_views(
                                    publish_order@,
                                )[j0];
                            assert(str_views(list@)[w] == str_views(publish_order@)[j0]);
                        }
                    }
                } else {
                    assert(!reaches(self.crates_map@, krate@, nm)) by {
                        if reaches(self.crates_map@, krate@, nm) {
                            assert(str_views(closure@).contains(nm));
                        }
                    }
                }
                lemma_subsequence_step(
                    str_views(list@),
                    str_views(pre),
                    str_views(publish_order@),
                    j as int,
                    in_closure,
                );
            }
            j += 1;
        }
        proof {
            assert(str_views(publish_order@).take(n as int) =~= str_views(publish_order@));
        }
        Ok(list)
    }
}

/// `sub` appears inside `sup` in order: an increasing index map carries
/// `sub` into `sup`.
pub open spec fn is_subsequence(sub: Seq<Seq<char>>, sup: Seq<Seq<char>>) -> bool
    decreases sub.len(), sup.len(),
{
    if sub.len() == 0 {
        true
    } else if sup.len() == 0 {
        false
    } else if sub.last() == sup.last() {
        is_subsequence(sub.drop_last(), sup.drop_last())
    } else {
        is_subsequence(sub, sup.drop_last())
    }
}

/// Filtering one more order entry preserves the subsequence shape.
proof fn lemma_subsequence_step(
    cur: Seq<Seq<char>>,
    pre: Seq<Seq<char>>,
    sup: Seq<Seq<char>>,
    j: int,
    took: bool,
)
    requires
        0 <= j < sup.len(),
        is_subsequence(pre, sup.take(j)),
        took ==> cur == pre.push(sup[j]),
        !took ==> cur == pre,
    ensures
        is_subsequence(cur, sup.take(j + 1)),
{
    assert(sup.take(j + 1).drop_last() =~= sup.take(j));
    assert(sup.take(j + 1).last() == sup[j]);
    if took {
        assert(cur.last() == sup[j]);
        assert(cur.drop_last() =~= pre);
    } else {
        lemma_subsequence_grow(cur, sup.take(j + 1));
    }
}

/// Dropping a subsequence's last element leaves a subsequence.
proof fn lemma_subsequence_drop_sub(sub: Seq<Seq<char>>, sup: Seq<Seq<char>>)
    requires
        sub.len() >= 1,
        is_subsequence(sub, sup),
    ensures
        is_subsequence(sub.drop_last(), sup),
    decreases sup.len(),
{
    if sup.len() == 0 {
    } else {
        let s2 = sub.drop_last();
        if sub.last() == sup.last() {
            if s2.len() > 0 && s2.last() == sup.last() {
                lemma_subsequence_drop_sub(s2, sup.drop_last());
            }
        } else {
            lemma_subsequence_drop_sub(sub, sup.drop_last());
            if s2.len() > 0 && s2.last() == sup.last() {
                lemma_subsequence_drop_sub(s2, sup.drop_last());
            }
        }
    }
}

/// A subsequence of a carrier without its last element is a subsequence
/// of the whole carrier.
proof fn lemma_subsequence_grow(sub: Seq<Seq<char>>, sup: Seq<Seq<char>>)
    requires
        sup.len() >= 1,
        is_subsequence(sub, sup.drop_last()),
    ensures
        is_subsequence(sub, sup),
{
    if sub.len() > 0 && sub.last() == sup.last() {
        lemma_subsequence_drop_sub(sub, sup.drop_last());
    }
}

} // verus!

verus! {

/// A step extends reachability by one edge on the left.
pub proof fn lemma_reaches_prepend(
    details: Seq<CrateDetails>,
    a: Seq<char>,
    b: Seq<char>,
    c: Seq<char>,
)
    requires
        dep_edge(details, a, b),
        reaches(details, b, c),
    ensures
        reaches(details, a, c),
{
    let p = choose|p: Seq<Seq<char>>|
        is_dep_path(details, p) && p.first() == b && p.last() == c;
    let q = seq![a] + p;
    assert forall|i: int| 0 <= i < q.len() - 1 implies dep_edge(details, #[trigger] q[i], q[i + 1]) by {
        if i == 0 {
            assert(q[0] == a && q[1] == p[0]);
        } else {
            assert(q[i] == p[i - 1] && q[i + 1] == p[i]);
            assert(dep_edge(details, p[i - 1], p[i]));
        }
    }
    assert(is_dep_path(details, q) && q.first() == a && q.last() == c);
}

/// Whether a crate may be pulled into a dependent closure: it is not in
/// the skip list, and is publishable when that is demanded.
pub open spec fn closure_eligible(
    details: Seq<CrateDetails>,
    k: int,
    skip: Seq<Seq<char>>,
    require_publishable: bool,
) -> bool {
    !skip.contains(details[k].name@) && (require_publishable ==> details[k].should_be_published)
}

/// A distinct name list inside the workspace names plus some seeds is no
/// longer than both together.
proof fn lemma_closure_len_bound_multi(
    details: Seq<CrateDetails>,
    s: Seq<Seq<char>>,
    seeds: Seq<Seq<char>>,
)
    requires
        s.no_duplicates(),
        forall|i: int|
            0 <= i < s.len() ==> crate_names(details).contains(#[trigger] s[i]) || seeds.contains(
                s[i],
            ),
    ensures
        s.len() <= details.len() + seeds.len(),
{
    let sup = crate_names(details) + seeds;
    assert forall|i: int| 0 <= i < s.len() implies sup.contains(#[trigger] s[i]) by {
        if crate_names(details).contains(s[i]) {
            let w = choose|w: int|
                0 <= w < crate_names(details).len() && crate_names(details)[w] == s[i];
            assert(sup[w] == s[i]);
        } else {
            let w = choose|w: int| 0 <= w < seeds.len() && seeds[w] == s[i];
            assert(sup[crate_names(details).len() + w] == s[i]);
        }
    }
    s.unique_seq_to_set();
    sup.lemma_cardinality_of_set();
    assert(s.to_set().subset_of(sup.to_set()));
    vstd::set_lib::lemma_len_subset(s.to_set(), sup.to_set());
}

/// Close a set of names upward over the publish-relevant graph: starting
/// from the seeds, repeatedly add every eligible crate that depends on a
/// member, until nothing more can be added.
pub fn dependent_closure(
    details: &Vec<CrateDetails>,
    seeds: &Vec<String>,
    skip: &Vec<String>,
    require_publishable: bool,
) -> (r: Vec<String>)
    ensures
        str_views(r@).no_duplicates(),
        forall|i: int|
            0 <= i < seeds@.len() ==> str_views(r@).contains(#[trigger] str_views(seeds@)[i]),
        forall|k: int, d: int|
            0 <= k < details@.len() && closure_eligible(
                details@,
                k,
                str_views(skip@),
                require_publishable,
            ) && 0 <= d < details@[k].spec_deps().len() && str_views(r@).contains(
                #[trigger] details@[k].spec_deps()[d],
            ) ==> str_views(r@).contains(details@[k].name@),
        forall|i: int|
            0 <= i < r@.len() ==> str_views(seeds@).contains(#[trigger] str_views(r@)[i]) || (
            exists|s: int|
                0 <= s < seeds@.len() && reaches(
                    details@,
                    str_views(r@)[i],
                    #[trigger] str_views(seeds@)[s],
                )),
{
    let n = details.len();
    let n_seeds = seeds.len();
    let mut result: Vec<String> = Vec::new();
    let mut i: usize = 0;
    while i < n_seeds
        invariant
            n_seeds == seeds@.len(),
            0 <= i <= n_seeds,
            str_views(result@).no_duplicates(),
            forall|j: int|
                0 <= j < i ==> str_views(result@).contains(#[trigger] str_views(seeds@)[j]),
            forall|j: int|
                0 <= j < result@.len() ==> str_views(seeds@).contains(
                    #[trigger] str_views(result@)[j],
                ),
        decreases n_seeds - i,
    {
        if !contains_name(&result, seeds[i].as_str()) {
            let ghost pre = result@;
            result.push(clone_string(&seeds[i]));
            proof {
                assert(str_views(result@) =~= str_views(pre).push(str_views(seeds@)[i as int]));
                assert forall|a: int, b: int|
                    0 <= a < b < str_views(result@).len() implies str_views(result@)[a]
                    != str_views(result@)[b] by {
                    if b == str_views(result@).len() - 1 {
                        assert(!str_views(pre).contains(str_views(seeds@)[i as int]));
                        assert(str_views(result@)[a] == str_views(pre)[a]);
                    } else {
                        assert(str_views(result@)[a] == str_views(pre)[a]);
                        assert(str_views(result@)[b] == str_views(pre)[b]);
                    }
                }
                assert forall|j: int|
                    0 <= j < i + 1 implies str_views(result@).contains(
                    #[trigger] str_views(seeds@)[j],
                ) by {
                    if j < i {
                        assert(str_views(pre).contains(str_views(seeds@)[j]));
                        let w = choose|w: int|
                            0 <= w < str_views(pre).len() && str_views(pre)[w] == str_views(
                                seeds@,
                            )[j];
                        assert(str_views(result@)[w] == str_views(seeds@)[j]);
                    } else {
                        assert(str_views(result@).last() == str_views(seeds@)[j]);
                    }
                }
            }
        }
        i += 1;
    }
    proof {
        lemma_closure_len_bound_multi(details@, str_views(result@), str_views(seeds@));
    }
    loop
        invariant
            n == details@.len(),
            str_views(result@).no_duplicates(),
            forall|j: int|
                0 <= j < seeds@.len() ==> str_views(result@).contains(
                    #[trigger] str_views(seeds@)[j],
                ),
            forall|j: int|
                0 <= j < result@.len() ==> str_views(seeds@).contains(
                    #[trigger] str_views(result@)[j],
                ) || (crate_names(details@).contains(str_views(result@)[j]) && exists|s: int|
                    0 <= s < seeds@.len() && reaches(
                        details@,
                        str_views(result@)[j],
                        #[trigger] str_views(seeds@)[s],
                    )),
            result@.len() <= n + seeds@.len(),
        ensures
            str_views(result@).no_duplicates(),
            forall|j: int|
                0 <= j < seeds@.len() ==> str_views(result@).contains(
                    #[trigger] str_views(seeds@)[j],
                ),
            forall|j: int|
                0 <= j < result@.len() ==> str_views(seeds@).contains(
                    #[trigger] str_views(result@)[j],
                ) || (exists|s: int|
                    0 <= s < seeds@.len() && reaches(
                        details@,
                        str_views(result@)[j],
                        #[trigger] str_views(seeds@)[s],
                    )),
            forall|k: int, d: int|
                0 <= k < details@.len() && closure_eligible(
                    details@,
                    k,
                    str_views(skip@),
                    require_publishable,
                ) && 0 <= d < details@[k].spec_deps().len() && str_views(result@).contains(
                    #[trigger] details@[k].spec_deps()[d],
                ) ==> str_views(result@).contains(details@[k].name@),
        decreases n + seeds@.len() - result@.len(),
    {
        let ghost start_len = result@.len();
        let mut progressed = false;
        let mut k: usize = 0;
        while k < n
            invariant
                n == details@.len(),
                0 <= k <= n,
                str_views(result@).no_duplicates(),
                forall|j: int|
                    0 <= j < seeds@.len() ==> str_views(result@).contains(
                        #[trigger] str_views(seeds@)[j],
                    ),
                forall|j: int|
                    0 <= j < result@.len() ==> str_views(seeds@).contains(
                        #[trigger] str_views(result@)[j],
                    ) || (crate_names(details@).contains(str_views(result@)[j]) && exists|s: int|
                        0 <= s < seeds@.len() && reaches(
                            details@,
                            str_views(result@)[j],
                            #[trigger] str_views(seeds@)[s],
                        )),
                result@.len() <= n + seeds@.len(),
                result@.len() >= start_len,
                progressed ==> result@.len() > start_len,
                !progressed ==> (forall|k0: int, d: int|
                    0 <= k0 < k && closure_eligible(
                        details@,
                        k0,
                        str_views(skip@),
                        require_publishable,
                    ) && 0 <= d < details@[k0].spec_deps().len() && str_views(result@).contains(
                        #[trigger] details@[k0].spec_deps()[d],
                    ) ==> str_views(result@).contains(details@[k0].name@)),
            decreases n - k,
        {
            let name_present = contains_name(&result, details[k].name.as_str());
            let in_skip = contains_name(skip, details[k].name.as_str());
            let eligible = !in_skip && (!require_publishable || details[k].should_be_published);
            let mut found: Option<usize> = None;
            if eligible && !name_present {
                // Does some dependency already sit in the closure?
                let deps_len = details[k].deps.len();
                let mut d: usize = 0;
                while d < deps_len
                    invariant
                        n == details@.len(),
                        0 <= k < n,
                        deps_len == details@[k as int].deps@.len(),
                        0 <= d <= deps_len,
                        match found {
                            Some(f) => f < deps_len && str_views(result@).contains(
                                details@[k as int].spec_deps()[f as int],
                            ),
                            None => forall|d0: int|
                                0 <= d0 < d ==> !str_views(result@).contains(
                                    #[trigger] details@[k as int].spec_deps()[d0],
                                ),
                        },
                    decreases deps_len - d,
                {
                    if found.is_none() {
                        let hit = {
                            let dep = &details[k].deps[d];
                            contains_name(&result, dep.as_str())
                        };
                        if hit {
                            found = Some(d);
                        }
                    }
                    d += 1;
                }
                if let Some(f) = found {
                    let ghost pre = result@;
                    result.push(clone_string(&details[k].name));
                    progressed = true;
                    proof {
                        let nm = details@[k as int].name@;
                        let dep = details@[k as int].spec_deps()[f as int];
                        assert(str_views(result@) =~= str_views(pre).push(nm));
                        assert forall|a: int, b: int|
                            0 <= a < b < str_views(result@).len() implies str_views(result@)[a]
                            != str_views(result@)[b] by {
                            if b == str_views(result@).len() - 1 {
                                assert(!str_views(pre).contains(nm));
                                assert(str_views(result@)[a] == str_views(pre)[a]);
                            } else {
                                assert(str_views(result@)[a] == str_views(pre)[a]);
                                assert(str_views(result@)[b] == str_views(pre)[b]);
                            }
                        }
                        assert forall|j: int|
                            0 <= j < seeds@.len() implies str_views(result@).contains(
                            #[trigger] str_views(seeds@)[j],
                        ) by {
                            assert(str_views(pre).contains(str_views(seeds@)[j]));
                            let w = choose|w: int|
                                0 <= w < str_views(pre).len() && str_views(pre)[w] == str_views(
                                    seeds@,
                                )[j];
                            assert(str_views(result@)[w] == str_views(seeds@)[j]);
                        }
                        // The new crate reaches a seed through the member
                        // dependency that pulled it in.
                        assert(dep_edge(details@, nm, dep)) by {
                            assert(details@[k as int].spec_deps().contains(dep));
                        }
                        let w = choose|w: int|
                            0 <= w < str_views(pre).len() && str_views(pre)[w] == dep;
                        if str_views(seeds@).contains(dep) {
                            let s0 = choose|s0: int|
                                0 <= s0 < str_views(seeds@).len() && str_views(seeds@)[s0] == dep;
                            lemma_reaches_self(details@, dep);
                            lemma_reaches_prepend(details@, nm, dep, dep);
                            assert(reaches(details@, nm, str_views(seeds@)[s0]));
                        } else {
                            let s0 = choose|s0: int|
                                0 <= s0 < seeds@.len() && reaches(
                                    details@,
                                    str_views(pre)[w],
                                    #[trigger] str_views(seeds@)[s0],
                                );
                            lemma_reaches_prepend(details@, nm, dep, str_views(seeds@)[s0]);
                        }
                        assert(crate_names(details@)[k as int] == nm);
                        assert forall|j: int|
                            0 <= j < result@.len() implies str_views(seeds@).contains(
                            #[trigger] str_views(result@)[j],
                        ) || (crate_names(details@).contains(str_views(result@)[j]) && exists|
                            s0: int,
                        |
                            0 <= s0 < seeds@.len() && reaches(
                                details@,
                                str_views(result@)[j],
                                #[trigger] str_views(seeds@)[s0],
                            )) by {
                            if j < pre.len() {
                                assert(str_views(result@)[j] == str_views(pre)[j]);
                            } else {
                                assert(str_views(result@)[j] == nm);
                            }
                        }
                        lemma_closure_len_bound_multi(
                            details@,
                            str_views(result@),
                            str_views(seeds@),
                        );
                    }
                }
            }
            proof {
                if !progressed {
                    assert forall|k0: int, d: int|
                        0 <= k0 < k + 1 && closure_eligible(
                            details@,
                            k0,
                            str_views(skip@),
                            require_publishable,
                        ) && 0 <= d < details@[k0].spec_deps().len() && str_views(result@).contains(
                            #[trigger] details@[k0].spec_deps()[d],
                        ) implies str_views(result@).contains(details@[k0].name@) by {
                        if k0 == k as int {
                            if !name_present && eligible {
                                assert(found is None);
                                assert(forall|d0: int|
                                    0 <= d0 < details@[k as int].spec_deps().len()
                                        ==> !str_views(result@).contains(
                                        #[trigger] details@[k as int].spec_deps()[d0],
                                    ));
                            }
                        }
                    }
                }
            }
            k += 1;
        }
        if !progressed {
            break;
        }
    }
    result
}

} // verus!
