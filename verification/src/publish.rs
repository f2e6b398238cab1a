//! The orchestrator's decisions: which crates are excluded, which are
//! candidates, where a resumed run starts, whether a selection is valid,
//! and which bump heuristic a crate gets. The surrounding process — I/O,
//! the packaging tool, the registry — acts on these decisions.

use vstd::prelude::*;

use crate::crate_details::{clone_string, contains_name, CrateDetails};
use crate::crates::{closure_eligible, dependent_closure, reaches, Crates};
use crate::order::crate_names;
use crate::text::{split_once_exact, str_eq, str_views};
use crate::version::{parse_version, Version, VersionBumpHeuristic};

verus! {

/// The configuration bag of one publish run.
pub struct PublishOpts {
    pub root: String,
    pub publish_only: Vec<String>,
    pub start_from: Option<String>,
    pub verify_from: Option<String>,
    pub verify_only: Vec<String>,
    pub after_publish_delay: Option<u64>,
    pub include_crates_dependents: bool,
    pub exclude: Vec<String>,
    pub post_check: bool,
    pub for_pull_request: bool,
    pub index_url: Option<String>,
    pub index_repository: Option<String>,
    pub clear_cargo_home: Option<String>,
    pub stop_at_step: Option<String>,
    pub crates_to_bump_compatibly: Vec<String>,
    pub crates_to_bump_majorly: Vec<String>,
    pub pre_bump_versions: Vec<String>,
    pub publish_versions: Vec<String>,
    pub no_version_adjustment: bool,
    pub verify_none: bool,
    pub crates_debug_descriptions: Vec<String>,
    pub set_dependency_versions: Vec<String>,
    pub post_publish_cleanup_glob: Vec<String>,
}

/// The phases a run can be told to stop after.
#[derive(Clone, Copy, PartialEq, Eq, Structural, Debug)]
pub enum StepToStopAt {
    Validation,
}

impl StepToStopAt {
    /// Parse the phase name given on the command line.
    pub fn from_str(s: &str) -> (r: Option<StepToStopAt>)
        ensures
            r is Some <==> s@ == "validation"@,
            r matches Some(v) ==> v == StepToStopAt::Validation,
    {
        if str_eq(s, "validation") {
            Some(StepToStopAt::Validation)
        } else {
            None
        }
    }
}

/// A malformed command-line value.
#[derive(Debug)]
pub enum OptsError {
    /// The argument is not of the form `name=value`.
    MalformedArgument(String),
    /// The value part is not a SemVer version.
    InvalidVersion(String),
}

/// Split a `name=value` argument at its single equals sign.
pub fn parse_name_value_arg(arg: &str) -> (r: Result<(String, String), OptsError>)
    ensures
        match r {
            Ok(p) => arg@ =~= p.0@ + seq!['='] + p.1@ && !p.0@.contains('=') && !p.1@.contains(
                '=',
            ),
            Err(OptsError::MalformedArgument(a)) => a@ == arg@ && arg@.filter(
                |c: char| c == '=',
            ).len() != 1,
            Err(_) => false,
        },
{
    match split_once_exact(arg, '=') {
        Some(p) => Ok(p),
        None => Err(OptsError::MalformedArgument(arg.to_owned())),
    }
}

/// Split a `name=version` argument and parse its version.
pub fn parse_name_version_arg(arg: &str) -> (r: Result<(String, Version), OptsError>)
    ensures
        match r {
            Ok(p) => (exists|name: Seq<char>, raw: Seq<char>|
                arg@ == name + seq!['='] + raw && p.0@ == name) && p.1.wf(),
            Err(OptsError::MalformedArgument(a)) => a@ == arg@ && arg@.filter(
                |c: char| c == '=',
            ).len() != 1,
            Err(OptsError::InvalidVersion(a)) => a@ == arg@,
        },
{
    let (name, raw) = match parse_name_value_arg(arg) {
        Ok(p) => p,
        Err(e) => {
            return Err(e);
        },
    };
    match parse_version(raw.as_str()) {
        Some(v) => {
            proof {
                assert(arg@ == name@ + seq!['='] + raw@ && name@ == name@);
            }
            Ok((name, v))
        },
        None => Err(OptsError::InvalidVersion(arg.to_owned())),
    }
}

/// Expand the user's exclusion set to its fixed point: a crate that
/// depends, directly or transitively, on an excluded crate is excluded
/// too.
pub fn expand_exclusions(details: &Vec<CrateDetails>, exclude: &Vec<String>) -> (r: Vec<String>)
    ensures
        str_views(r@).no_duplicates(),
        forall|i: int|
            0 <= i < exclude@.len() ==> str_views(r@).contains(#[trigger] str_views(exclude@)[i]),
        // Exclusion closure: a crate with an excluded dependency is
        // excluded.
        forall|k: int, d: int|
            0 <= k < details@.len() && 0 <= d < details@[k].spec_deps().len() && str_views(
                r@,
            ).contains(#[trigger] details@[k].spec_deps()[d]) ==> str_views(r@).contains(
                details@[k].name@,
            ),
        // And nothing else: every excluded name was named by the user or
        // depends on a user-named one.
        forall|i: int|
            0 <= i < r@.len() ==> str_views(exclude@).contains(#[trigger] str_views(r@)[i]) || (
            exists|s: int|
                0 <= s < exclude@.len() && reaches(
                    details@,
                    str_views(r@)[i],
                    #[trigger] str_views(exclude@)[s],
                )),
{
    let skip: Vec<String> = Vec::new();
    let r = dependent_closure(details, exclude, &skip, false);
    proof {
        assert forall|k: int, d: int|
            0 <= k < details@.len() && 0 <= d < details@[k].spec_deps().len() && str_views(
                r@,
            ).contains(#[trigger] details@[k].spec_deps()[d]) implies str_views(r@).contains(
            details@[k].name@,
        ) by {
            assert(str_views(skip@) =~= Seq::<Seq<char>>::empty());
            assert(closure_eligible(details@, k, str_views(skip@), false));
        }
    }
    r
}

/// Whether a crate of the publish order is a candidate by default: it is
/// the resume anchor, or it is neither excluded nor marked unpublishable.
pub open spec fn default_candidate(
    details: Seq<CrateDetails>,
    nm: Seq<char>,
    start_from: Option<Seq<char>>,
    excluded: Seq<Seq<char>>,
) -> bool {
    (start_from matches Some(s) && s == nm) || (!excluded.contains(nm) && exists|k: int|
        0 <= k < details.len() && (#[trigger] details[k]).name@ == nm
            && details[k].should_be_published)
}

/// The default candidate set: the publish order without the excluded and
/// unpublishable crates, keeping the resume anchor.
pub fn default_candidates(
    details: &Vec<CrateDetails>,
    publish_order: &Vec<String>,
    start_from: &Option<String>,
    excluded: &Vec<String>,
) -> (r: Vec<String>)
    requires
        forall|j: int|
            0 <= j < publish_order@.len() ==> crate_names(details@).contains(
                #[trigger] str_views(publish_order@)[j],
            ),
    ensures
        str_views(r@) =~= str_views(publish_order@).filter(
            |nm: Seq<char>|
                default_candidate(
                    details@,
                    nm,
                    match start_from {
                        Some(s) => Some(s@),
                        None => None,
                    },
                    str_views(excluded@),
                ),
        ),
{
    let ghost keep = |nm: Seq<char>|
        default_candidate(
            details@,
            nm,
            match start_from {
                Some(s) => Some(s@),
                None => None,
            },
            str_views(excluded@),
        );
    let ghost ov = str_views(publish_order@);
    let n = publish_order.len();
    let mut r: Vec<String> = Vec::new();
    let mut j: usize = 0;
    proof {
        assert(ov.take(0) =~= Seq::<Seq<char>>::empty());
        assert(str_views(r@) =~= ov.take(0).filter(keep));
    }
    while j < n
        invariant
            n == publish_order@.len(),
            ov == str_views(publish_order@),
            keep == (|nm: Seq<char>|
                default_candidate(
                    details@,
                    nm,
                    match start_from {
                        Some(s) => Some(s@),
                        None => None,
                    },
                    str_views(excluded@),
                )),
            forall|j0: int|
                0 <= j0 < publish_order@.len() ==> crate_names(details@).contains(
                    #[trigger] str_views(publish_order@)[j0],
                ),
            0 <= j <= n,
            str_views(r@) =~= ov.take(j as int).filter(keep),
        decreases n - j,
    {
        let nm = &publish_order[j];
        let is_anchor = match start_from {
            Some(s) => str_eq(s.as_str(), nm.as_str()),
            None => false,
        };
        let mut take = is_anchor;
        if !take {
            if !contains_name(excluded, nm.as_str()) {
                let mut k: usize = 0;
                let dn = details.len();
                let mut found = false;
                while k < dn
                    invariant
                        dn == details@.len(),
                        0 <= k <= dn,
                        found ==> exists|k0: int|
                            0 <= k0 < details@.len() && (#[trigger] details@[k0]).name@ == nm@
                                && details@[k0].should_be_published,
                        !found ==> (forall|k0: int|
                            0 <= k0 < k ==> !((#[trigger] details@[k0]).name@ == nm@
                                && details@[k0].should_be_published)),
                    decreases dn - k,
                {
                    if !found && str_eq(details[k].name.as_str(), nm.as_str()) {
                        if details[k].should_be_published {
                            found = true;
                        }
                    }
                    k += 1;
                }
                take = found;
                proof {
                    if !found {
                        if exists|k0: int|
                            0 <= k0 < details@.len() && (#[trigger] details@[k0]).name@ == nm@
                                && details@[k0].should_be_published {
                            let w = choose|k0: int|
                                0 <= k0 < details@.len() && (#[trigger] details@[k0]).name@ == nm@
                                    && details@[k0].should_be_published;
                            assert(false);
                        }
                    }
                }
            }
        }
        let ghost pre = r@;
        if take {
            r.push(clone_string(nm));
            proof {
                assert(str_views(r@) =~= str_views(pre).push(ov[j as int]));
            }
        }
        proof {
            assert(ov.take(j + 1).drop_last() =~= ov.take(j as int));
            assert(ov.take(j + 1).last() == ov[j as int]);
            reveal_with_fuel(Seq::filter, 2);
            assert(take == keep(ov[j as int]));
        }
        j += 1;
    }
    proof {
        assert(ov.take(n as int) =~= ov);
    }
    r
}

/// The candidate set when explicit crates were selected: the publish order
/// restricted to the selected names, first expanded with their eligible
/// dependents when asked to.
pub fn selected_candidates(
    details: &Vec<CrateDetails>,
    publish_order: &Vec<String>,
    publish_only: &Vec<String>,
    include_dependents: bool,
    excluded: &Vec<String>,
) -> (r: Vec<String>)
    ensures
        forall|j: int|
            0 <= j < r@.len() ==> str_views(publish_order@).contains(#[trigger] str_views(r@)[j]),
        !include_dependents ==> str_views(r@) =~= str_views(publish_order@).filter(
            |nm: Seq<char>| str_views(publish_only@).contains(nm),
        ),
        // With dependents included, every selected crate was either named
        // outright or transitively depends on a named one.
        include_dependents ==> forall|j: int|
            0 <= j < r@.len() ==> str_views(publish_only@).contains(#[trigger] str_views(r@)[j])
                || (exists|s: int|
                0 <= s < publish_only@.len() && reaches(
                    details@,
                    str_views(r@)[j],
                    #[trigger] str_views(publish_only@)[s],
                )),
{
    let chosen: Vec<String> = if include_dependents {
        dependent_closure(details, publish_only, excluded, true)
    } else {
        let mut c: Vec<String> = Vec::new();
        let m = publish_only.len();
        let mut i: usize = 0;
        while i < m
            invariant
                m == publish_only@.len(),
                0 <= i <= m,
                c@.len() == i,
                forall|k: int| 0 <= k < i ==> (#[trigger] c@[k])@ == publish_only@[k]@,
            decreases m - i,
        {
            c.push(clone_string(&publish_only[i]));
            i += 1;
        }
        proof {
            assert(str_views(c@) =~= str_views(publish_only@));
        }
        c
    };
    proof {
        if !include_dependents {
            assert(str_views(chosen@) =~= str_views(publish_only@));
        }
    }
    let n = publish_order.len();
    let mut r: Vec<String> = Vec::new();
    let ghost ov = str_views(publish_order@);
    let ghost keep = |nm: Seq<char>| str_views(chosen@).contains(nm);
    let mut j: usize = 0;
    proof {
        assert(ov.take(0) =~= Seq::<Seq<char>>::empty());
        assert(str_views(r@) =~= ov.take(0).filter(keep));
    }
    while j < n
        invariant
            n == publish_order@.len(),
            ov == str_views(publish_order@),
            keep == (|nm: Seq<char>| str_views(chosen@).contains(nm)),
            0 <= j <= n,
            str_views(r@) =~= ov.take(j as int).filter(keep),
            forall|j0: int|
                0 <= j0 < r@.len() ==> str_views(publish_order@).contains(
                    #[trigger] str_views(r@)[j0],
                ),
        decreases n - j,
    {
        let ghost pre = r@;
        if contains_name(&chosen, publish_order[j].as_str()) {
            r.push(clone_string(&publish_order[j]));
            proof {
                assert(str_views(r@) =~= str_views(pre).push(ov[j as int]));
                assert forall|j0: int|
                    0 <= j0 < r@.len() implies str_views(publish_order@).contains(
                    #[trigger] str_views(r@)[j0],
                ) by {
                    if j0 < pre.len() {
                        assert(str_views(r@)[j0] == str_views(pre)[j0]);
                    } else {
                        assert(str_views(r@)[j0] == ov[j as int]);
                    }
                }
            }
        }
        proof {
            assert(ov.take(j + 1).drop_last() =~= ov.take(j as int));
            assert(ov.take(j + 1).last() == ov[j as int]);
            reveal_with_fuel(Seq::filter, 2);
        }
        j += 1;
    }
    proof {
        assert(ov.take(n as int) =~= ov);
        if include_dependents {
            assert forall|j: int|
                0 <= j < r@.len() implies str_views(publish_only@).contains(
                #[trigger] str_views(r@)[j],
            ) || (exists|s: int|
                0 <= s < publish_only@.len() && reaches(
                    details@,
                    str_views(r@)[j],
                    #[trigger] str_views(publish_only@)[s],
                )) by {
                let nm = str_views(r@)[j];
                assert(str_views(r@) == ov.filter(keep));
                vstd::seq::Seq::lemma_filter_pred(ov, keep, j);
                assert(keep(nm));
                assert(str_views(chosen@).contains(nm));
                let w = choose|w: int|
                    0 <= w < str_views(chosen@).len() && str_views(chosen@)[w] == nm;
                assert(str_views(publish_only@).contains(str_views(chosen@)[w]) || (exists|s: int|
                    0 <= s < publish_only@.len() && reaches(
                        details@,
                        str_views(chosen@)[w],
                        #[trigger] str_views(publish_only@)[s],
                    )));
            }
        }
    }
    r
}

/// What remains of the candidates when resuming from `start`: everything
/// from the first occurrence of `start` on, with `start` itself dropped
/// when it is excluded; nothing when `start` does not occur.
pub open spec fn spec_select_from(
    candidates: Seq<Seq<char>>,
    start: Seq<char>,
    start_excluded: bool,
) -> Seq<Seq<char>> {
    if !candidates.contains(start) {
        Seq::empty()
    } else {
        let f = first_index_of(candidates, start);
        candidates.skip(f).filter(|nm: Seq<char>| !(start_excluded && nm == start))
    }
}

/// The first index at which `x` occurs.
pub open spec fn first_index_of(s: Seq<Seq<char>>, x: Seq<char>) -> int
    decreases s.len(),
{
    if s.len() == 0 {
        0
    } else if s[0] == x {
        0
    } else {
        1 + first_index_of(s.drop_first(), x)
    }
}

pub proof fn lemma_first_index_of(s: Seq<Seq<char>>, x: Seq<char>)
    requires
        s.contains(x),
    ensures
        0 <= first_index_of(s, x) < s.len(),
        s[first_index_of(s, x)] == x,
        forall|j: int| 0 <= j < first_index_of(s, x) ==> s[j] != x,
    decreases s.len(),
{
    if s.len() > 0 && s[0] != x {
        assert(s.drop_first().contains(x)) by {
            let w = choose|w: int| 0 <= w < s.len() && s[w] == x;
            assert(s.drop_first()[w - 1] == x);
        }
        lemma_first_index_of(s.drop_first(), x);
        let f = first_index_of(s, x);
        assert(s[f] == s.drop_first()[f - 1]);
        assert forall|j: int| 0 <= j < f implies s[j] != x by {
            if j > 0 {
                assert(s.drop_first()[j - 1] != x);
            }
        }
    }
}

/// `nm` occurs in `names` at or after the first occurrence of `start`.
pub open spec fn appears_at_or_after(names: Seq<Seq<char>>, start: Seq<char>, nm: Seq<char>) -> bool {
    exists|j: int|
        first_index_of(names, start) <= j < names.len() && #[trigger] names[j] == nm
}

/// Resume the candidate list from `start`: drop everything ordered before
/// the first occurrence of `start`, and `start` itself when excluded.
/// Resume safety: every kept crate sits at or after the resume anchor in
/// the candidate list, so nothing ordered strictly before the anchor is
/// touched.
pub fn select_from_start(
    candidates: &Vec<String>,
    start: &String,
    excluded: &Vec<String>,
) -> (r: Vec<String>)
    ensures
        str_views(r@) =~= spec_select_from(
            str_views(candidates@),
            start@,
            str_views(excluded@).contains(start@),
        ),
        // Resume safety: each kept name occurs in the candidates no
        // earlier than the anchor's first occurrence.
        forall|i: int|
            0 <= i < r@.len() ==> appears_at_or_after(
                str_views(candidates@),
                start@,
                #[trigger] str_views(r@)[i],
            ),
{
    let ghost cv = str_views(candidates@);
    let start_excluded = contains_name(excluded, start.as_str());
    let ghost keep_pred = |nm: Seq<char>| !(str_views(excluded@).contains(start@) && nm == start@);
    let n = candidates.len();
    let mut r: Vec<String> = Vec::new();
    let mut keep = false;
    let ghost mut f: int = 0int;
    let mut j: usize = 0;
    while j < n
        invariant
            n == candidates@.len(),
            cv == str_views(candidates@),
            keep_pred == (|nm: Seq<char>|
                !(str_views(excluded@).contains(start@) && nm == start@)),
            start_excluded == str_views(excluded@).contains(start@),
            0 <= j <= n,
            keep ==> 0 <= f <= j && cv.contains(start@) && f == first_index_of(cv, start@)
                && str_views(r@) =~= cv.skip(f).take(j - f).filter(keep_pred),
            !keep ==> r@.len() == 0 && (forall|j0: int| 0 <= j0 < j ==> cv[j0] != start@),
            forall|i: int|
                0 <= i < r@.len() ==> appears_at_or_after(cv, start@, #[trigger] str_views(r@)[i]),
        decreases n - j,
    {
        let is_anchor = str_eq(candidates[j].as_str(), start.as_str());
        let ghost was_keep = keep;
        if is_anchor && !keep {
            keep = true;
            proof {
                f = j as int;
                lemma_first_index_of_witness(cv, start@, j as int);
                assert(cv.skip(f).take(0) =~= Seq::<Seq<char>>::empty());
                assert(str_views(r@) =~= cv.skip(f).take(0).filter(keep_pred));
            }
        }
        if keep {
            let drop_this = is_anchor && start_excluded;
            let ghost pre = r@;
            if !drop_this {
                r.push(clone_string(&candidates[j]));
                proof {
                    assert(str_views(r@) =~= str_views(pre).push(cv[j as int]));
                }
            }
            proof {
                let sk = cv.skip(f);
                assert(sk.take(j + 1 - f).drop_last() =~= sk.take(j - f));
                assert(sk.take(j + 1 - f).last() == cv[j as int]);
                reveal_with_fuel(Seq::filter, 2);
                assert(keep_pred(cv[j as int]) == !drop_this) by {
                    if is_anchor {
                        assert(cv[j as int] == start@);
                    } else {
                        assert(cv[j as int] != start@);
                    }
                }
                assert forall|i: int|
                    0 <= i < r@.len() implies appears_at_or_after(
                    cv,
                    start@,
                    #[trigger] str_views(r@)[i],
                ) by {
                    if i < pre.len() {
                        assert(str_views(pre)[i] == str_views(r@)[i]);
                    } else {
                        assert(str_views(r@)[i] == cv[j as int]);
                        assert(first_index_of(cv, start@) == f);
                        assert(first_index_of(cv, start@) <= j as int && (j as int) < cv.len()
                            && cv[j as int] == str_views(r@)[i]);
                    }
                }
            }
        }
        j += 1;
    }
    proof {
        if keep {
            assert(cv.skip(f).take(n - f) =~= cv.skip(f));
        } else {
            assert(!cv.contains(start@)) by {
                if cv.contains(start@) {
                    let w = choose|w: int| 0 <= w < cv.len() && cv[w] == start@;
                    assert(cv[w] != start@);
                }
            }
            assert(str_views(r@) =~= Seq::<Seq<char>>::empty());
        }
    }
    r
}

/// A witness index whose prefix is anchor-free pins the first index.
proof fn lemma_first_index_of_witness(s: Seq<Seq<char>>, x: Seq<char>, w: int)
    requires
        0 <= w < s.len(),
        s[w] == x,
        forall|j: int| 0 <= j < w ==> s[j] != x,
    ensures
        s.contains(x),
        first_index_of(s, x) == w,
    decreases w,
{
    if w == 0 {
    } else {
        assert(s[0] != x);
        lemma_first_index_of_witness(s.drop_first(), x, w - 1);
    }
}

} // verus!

verus! {

/// Why a selected crate must not be published.
#[derive(Debug)]
pub enum ValidationError {
    /// The candidate transitively requires this excluded crate.
    Excluded(String),
    /// The candidate transitively requires this crate, whose manifest
    /// forbids publishing.
    ShouldNotBePublished(String),
    /// The candidate is not a workspace member.
    NotFound(String),
}

/// Validation soundness: a candidate passes exactly when nothing in its
/// transitive publish-relevant dependency set — the candidate itself
/// included — is excluded or marked not to be published. A crate is
/// published only after it passes, so no published crate can require an
/// excluded or unpublishable one.
pub fn validate_crate(crates: &Crates, krate: &String, excluded: &Vec<String>) -> (r: Result<
    (),
    ValidationError,
>)
    requires
        crates.wf(),
    ensures
        match r {
            Ok(()) => {
                &&& crate_names(crates.crates_map@).contains(krate@)
                &&& forall|nm: Seq<char>|
                    reaches(crates.crates_map@, krate@, nm) ==> !str_views(excluded@).contains(nm)
                &&& forall|k: int|
                    0 <= k < crates.crates_map@.len() && reaches(
                        crates.crates_map@,
                        krate@,
                        (#[trigger] crates.crates_map@[k]).name@,
                    ) ==> crates.crates_map@[k].should_be_published
            },
            Err(ValidationError::Excluded(d)) => reaches(crates.crates_map@, krate@, d@)
                && str_views(excluded@).contains(d@),
            Err(ValidationError::ShouldNotBePublished(d)) => reaches(crates.crates_map@, krate@, d@)
                && exists|k: int|
                0 <= k < crates.crates_map@.len() && (#[trigger] crates.crates_map@[k]).name@ == d@
                    && !crates.crates_map@[k].should_be_published,
            Err(ValidationError::NotFound(n)) => n@ == krate@ && !crate_names(
                crates.crates_map@,
            ).contains(krate@),
        },
{
    match crates.get(krate.as_str()) {
        None => {
            return Err(ValidationError::NotFound(clone_string(krate)));
        },
        Some(c) => {
            proof {
                let k = choose|k: int|
                    0 <= k < crates.crates_map@.len() && crates.crates_map@[k] == *c && c.name@
                        == krate@;
                assert(crate_names(crates.crates_map@)[k] == krate@);
                assert(crate_names(crates.crates_map@).contains(krate@));
            }
        },
    }
    let members = crate::crates::dep_closure(&crates.crates_map, krate);
    let n = members.len();
    let mut i: usize = 0;
    while i < n
        invariant
            crates.wf(),
            n == members@.len(),
            0 <= i <= n,
            forall|nm: Seq<char>|
                str_views(members@).contains(nm) <==> reaches(crates.crates_map@, krate@, nm),
            forall|j: int|
                0 <= j < i ==> !str_views(excluded@).contains(#[trigger] str_views(members@)[j]),
            forall|j: int, k: int|
                0 <= j < i && 0 <= k < crates.crates_map@.len() && (
                #[trigger] crates.crates_map@[k]).name@ == (#[trigger] str_views(members@)[j])
                    ==> crates.crates_map@[k].should_be_published,
        decreases n - i,
    {
        let member = &members[i];
        proof {
            assert(str_views(members@)[i as int] == member@);
            assert(str_views(members@).contains(member@));
        }
        if contains_name(excluded, member.as_str()) {
            return Err(ValidationError::Excluded(clone_string(member)));
        }
        match crates.get(member.as_str()) {
            Some(c) => {
                if !c.should_be_published {
                    proof {
                        let k = choose|k: int|
                            0 <= k < crates.crates_map@.len() && crates.crates_map@[k] == *c
                                && c.name@ == member@;
                        assert(crates.crates_map@[k].name@ == member@);
                    }
                    return Err(ValidationError::ShouldNotBePublished(clone_string(member)));
                }
                proof {
                    assert forall|k: int|
                        0 <= k < crates.crates_map@.len() && (
                        #[trigger] crates.crates_map@[k]).name@ == member@ implies crates.crates_map@[k].should_be_published by {
                        let k0 = choose|k0: int|
                            0 <= k0 < crates.crates_map@.len() && crates.crates_map@[k0] == *c
                                && c.name@ == member@;
                        assert(crate_names(crates.crates_map@)[k] == crate_names(
                            crates.crates_map@,
                        )[k0]);
                        assert(k == k0);
                    }
                }
            },
            None => {
                proof {
                    assert forall|k: int|
                        0 <= k < crates.crates_map@.len() && (
                        #[trigger] crates.crates_map@[k]).name@ == member@ implies crates.crates_map@[k].should_be_published by {
                        assert(crate_names(crates.crates_map@)[k] == member@);
                        assert(crate_names(crates.crates_map@).contains(member@));
                    }
                }
            },
        }
        i += 1;
    }
    proof {
        assert forall|nm: Seq<char>|
            reaches(crates.crates_map@, krate@, nm) implies !str_views(excluded@).contains(nm) by {
            assert(str_views(members@).contains(nm));
            let j = choose|j: int|
                0 <= j < str_views(members@).len() && str_views(members@)[j] == nm;
        }
        assert forall|k: int|
            0 <= k < crates.crates_map@.len() && reaches(
                crates.crates_map@,
                krate@,
                (#[trigger] crates.crates_map@[k]).name@,
            ) implies crates.crates_map@[k].should_be_published by {
            assert(str_views(members@).contains(crates.crates_map@[k].name@));
            let j = choose|j: int|
                0 <= j < str_views(members@).len() && str_views(members@)[j]
                    == crates.crates_map@[k].name@;
        }
    }
    Ok(())
}

/// One crate's recorded bump decision.
pub struct BumpRecord {
    pub name: String,
    pub heuristic: VersionBumpHeuristic,
}

/// The first recorded decision for a crate, if any.
pub open spec fn recorded_heuristic(records: Seq<BumpRecord>, nm: Seq<char>) -> Option<
    VersionBumpHeuristic,
>
    decreases records.len(),
{
    if records.len() == 0 {
        None
    } else if records[0].name@ == nm {
        Some(records[0].heuristic)
    } else {
        recorded_heuristic(records.drop_first(), nm)
    }
}

/// The heuristic a crate is bumped with: an explicit major or compatible
/// listing wins; otherwise a crate whose bumped dependencies were all
/// bumped compatibly defaults to a compatible bump, and any dependency
/// bumped with a breaking change forces a breaking bump.
pub open spec fn spec_choose_bump(
    name: Seq<char>,
    deps: Seq<Seq<char>>,
    majorly: Seq<Seq<char>>,
    compatibly: Seq<Seq<char>>,
    records: Seq<BumpRecord>,
) -> VersionBumpHeuristic {
    if majorly.contains(name) {
        VersionBumpHeuristic::Breaking
    } else if compatibly.contains(name) {
        VersionBumpHeuristic::Compatible
    } else if exists|i: int|
        0 <= i < deps.len() && recorded_heuristic(records, #[trigger] deps[i]) == Some(
            VersionBumpHeuristic::Compatible,
        ) {
        if exists|i: int|
            0 <= i < deps.len() && recorded_heuristic(records, #[trigger] deps[i]) == Some(
                VersionBumpHeuristic::Breaking,
            ) {
            VersionBumpHeuristic::Breaking
        } else {
            VersionBumpHeuristic::Compatible
        }
    } else {
        VersionBumpHeuristic::Breaking
    }
}

/// Look up the first recorded decision for a crate.
fn lookup_heuristic(records: &Vec<BumpRecord>, nm: &str) -> (r: Option<VersionBumpHeuristic>)
    ensures
        r == recorded_heuristic(records@, nm@),
{
    let ghost rv = records@;
    let n = records.len();
    let mut i: usize = 0;
    proof {
        assert(rv.skip(0) =~= rv);
    }
    while i < n
        invariant
            n == records@.len(),
            rv == records@,
            0 <= i <= n,
            recorded_heuristic(rv, nm@) == recorded_heuristic(rv.skip(i as int), nm@),
        decreases n - i,
    {
        if str_eq(records[i].name.as_str(), nm) {
            proof {
                assert(rv.skip(i as int)[0] == rv[i as int]);
            }
            return Some(records[i].heuristic);
        }
        proof {
            assert(rv.skip(i as int)[0] == rv[i as int]);
            assert(rv.skip(i as int).drop_first() =~= rv.skip(i + 1));
        }
        i += 1;
    }
    None
}

/// Decide the bump heuristic for a crate.
pub fn choose_bump_heuristic(
    details: &CrateDetails,
    majorly: &Vec<String>,
    compatibly: &Vec<String>,
    records: &Vec<BumpRecord>,
) -> (r: VersionBumpHeuristic)
    ensures
        r == spec_choose_bump(
            details.name@,
            details.spec_deps(),
            str_views(majorly@),
            str_views(compatibly@),
            records@,
        ),
{
    if contains_name(majorly, details.name.as_str()) {
        return VersionBumpHeuristic::Breaking;
    }
    if contains_name(compatibly, details.name.as_str()) {
        return VersionBumpHeuristic::Compatible;
    }
    let n = details.deps.len();
    let mut any_compatible = false;
    let mut any_breaking = false;
    let mut i: usize = 0;
    while i < n
        invariant
            n == details.deps@.len(),
            0 <= i <= n,
            any_compatible == (exists|j: int|
                0 <= j < i && recorded_heuristic(records@, #[trigger] details.spec_deps()[j])
                    == Some(VersionBumpHeuristic::Compatible)),
            any_breaking == (exists|j: int|
                0 <= j < i && recorded_heuristic(records@, #[trigger] details.spec_deps()[j])
                    == Some(VersionBumpHeuristic::Breaking)),
        decreases n - i,
    {
        match lookup_heuristic(records, details.deps[i].as_str()) {
            Some(VersionBumpHeuristic::Compatible) => {
                any_compatible = true;
                proof {
                    assert(recorded_heuristic(records@, details.spec_deps()[i as int]) == Some(
                        VersionBumpHeuristic::Compatible,
                    ));
                }
            },
            Some(VersionBumpHeuristic::Breaking) => {
                any_breaking = true;
                proof {
                    assert(recorded_heuristic(records@, details.spec_deps()[i as int]) == Some(
                        VersionBumpHeuristic::Breaking,
                    ));
                }
            },
            None => {},
        }
        i += 1;
    }
    proof {
        assert(details.spec_deps().len() == n);
    }
    if any_compatible {
        if any_breaking {
            VersionBumpHeuristic::Breaking
        } else {
            VersionBumpHeuristic::Compatible
        }
    } else {
        VersionBumpHeuristic::Breaking
    }
}

} // verus!
