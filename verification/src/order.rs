//! The publish-order solver: ranks every crate by `1 + sum of the ranks of
//! its publish-relevant dependencies` (Kahn-style saturation), then sorts
//! ascending by rank with the crate name as tiebreak. Crates caught in a
//! dependency cycle never become rankable and are left out of the order.

use vstd::prelude::*;

use crate::crate_details::{contains_name, clone_string, CrateDetails};
use crate::text::{lemma_lex_lt_transitive, lemma_lex_lt_trichotomy, lex_lt, str_eq, str_lex_lt, str_views};

verus! {

/// The names of the workspace crates.
pub open spec fn crate_names(details: Seq<CrateDetails>) -> Seq<Seq<char>> {
    details.map_values(|c: CrateDetails| c.name@)
}

/// The sum of the recorded ranks of the given dependency names.
pub open spec fn sum_ranks(deps: Seq<Seq<char>>, ranks: Map<Seq<char>, int>) -> int
    decreases deps.len(),
{
    if deps.len() == 0 {
        0
    } else {
        ranks[deps[0]] + sum_ranks(deps.drop_first(), ranks)
    }
}

/// The rank map's domain is exactly the set of ordered names.
pub open spec fn dom_matches(names: Seq<Seq<char>>, ranks: Map<Seq<char>, int>) -> bool {
    &&& forall|i: int| 0 <= i < names.len() ==> ranks.dom().contains(#[trigger] names[i])
    &&& forall|n: Seq<char>| ranks.dom().contains(n) ==> names.contains(n)
}

/// Every recorded rank lies between 1 and the rank limit.
pub open spec fn ranks_bounded(ranks: Map<Seq<char>, int>) -> bool {
    forall|n: Seq<char>|
        ranks.dom().contains(n) ==> 1 <= #[trigger] ranks[n] <= u128::MAX as int
}

/// Every ordered crate has all its dependencies ordered, and its rank is
/// one more than the sum of their ranks.
pub open spec fn rank_consistent(
    details: Seq<CrateDetails>,
    names: Seq<Seq<char>>,
    ranks: Map<Seq<char>, int>,
) -> bool {
    forall|k: int|
        0 <= k < details.len() && names.contains((#[trigger] details[k]).name@) ==> {
            &&& forall|d: int|
                0 <= d < details[k].spec_deps().len() ==> ranks.dom().contains(
                    #[trigger] details[k].spec_deps()[d],
                )
            &&& ranks[details[k].name@] == 1 + sum_ranks(details[k].spec_deps(), ranks)
        }
}

/// No crate was left unordered that could have been ordered: a crate with
/// every dependency ordered, whose rank fits the rank limit, is ordered.
pub open spec fn order_saturated(
    details: Seq<CrateDetails>,
    names: Seq<Seq<char>>,
    ranks: Map<Seq<char>, int>,
) -> bool {
    forall|k: int| 0 <= k < details.len() ==> saturated_at(details, k, names, ranks)
}

/// The saturation condition for one crate.
pub open spec fn saturated_at(
    details: Seq<CrateDetails>,
    k: int,
    names: Seq<Seq<char>>,
    ranks: Map<Seq<char>, int>,
) -> bool {
    names.contains(details[k].name@) || !((forall|d: int|
        0 <= d < details[k].spec_deps().len() ==> names.contains(
            #[trigger] details[k].spec_deps()[d],
        )) && 1 + sum_ranks(details[k].spec_deps(), ranks) <= u128::MAX as int)
}

/// The order is ascending by rank, with the name as tiebreak.
pub open spec fn rank_sorted(names: Seq<Seq<char>>, ranks: Map<Seq<char>, int>) -> bool {
    forall|i: int, j: int|
        0 <= i < j < names.len() ==> rank_name_lt(
            ranks[#[trigger] names[i]],
            names[i],
            ranks[#[trigger] names[j]],
            names[j],
        )
}

/// The strict sort key order: by rank, then by name.
pub open spec fn rank_name_lt(ra: int, na: Seq<char>, rb: int, nb: Seq<char>) -> bool {
    ra < rb || (ra == rb && lex_lt(na, nb))
}

/// Every dependency of every listed crate appears strictly earlier in the
/// list.
pub open spec fn topologically_sorted(details: Seq<CrateDetails>, names: Seq<Seq<char>>) -> bool {
    forall|i: int, k: int|
        0 <= i < names.len() && 0 <= k < details.len() && (#[trigger] details[k]).name@ == (
        #[trigger] names[i]) ==> deps_before(details[k].spec_deps(), names, i)
}

/// Every one of `deps` appears in `names` before position `i`.
pub open spec fn deps_before(deps: Seq<Seq<char>>, names: Seq<Seq<char>>, i: int) -> bool {
    forall|d: int|
        0 <= d < deps.len() ==> exists|j: int| 0 <= j < i && names[j] == #[trigger] deps[d]
}

/// Everything the solver guarantees of its output, relative to one rank
/// assignment.
pub open spec fn publish_order_spec(
    details: Seq<CrateDetails>,
    names: Seq<Seq<char>>,
    ranks: Map<Seq<char>, int>,
) -> bool {
    &&& names.no_duplicates()
    &&& forall|i: int| 0 <= i < names.len() ==> crate_names(details).contains(#[trigger] names[i])
    &&& dom_matches(names, ranks)
    &&& ranks_bounded(ranks)
    &&& rank_consistent(details, names, ranks)
    &&& rank_sorted(names, ranks)
    &&& order_saturated(details, names, ranks)
}

/// One ordered crate with its rank.
struct RankedName {
    name: String,
    rank: u128,
}

/// The names of a ranked list.
spec fn rn_names(s: Seq<RankedName>) -> Seq<Seq<char>> {
    s.map_values(|p: RankedName| p.name@)
}

/// A distinct list of names drawn from another list is no longer than it.
proof fn lemma_distinct_subset_len(sub: Seq<Seq<char>>, sup: Seq<Seq<char>>)
    requires
        sub.no_duplicates(),
        forall|i: int| 0 <= i < sub.len() ==> sup.contains(#[trigger] sub[i]),
    ensures
        sub.len() <= sup.len(),
{
    sub.unique_seq_to_set();
    sup.lemma_cardinality_of_set();
    assert(sub.to_set().subset_of(sup.to_set()));
    vstd::set_lib::lemma_len_subset(sub.to_set(), sup.to_set());
}

/// A rank sum depends only on the ranks of the summed names, so extending
/// the map with a fresh key leaves it unchanged.
proof fn lemma_sum_ranks_stable(
    deps: Seq<Seq<char>>,
    ranks: Map<Seq<char>, int>,
    fresh: Seq<char>,
    rank: int,
)
    requires
        forall|d: int| 0 <= d < deps.len() ==> ranks.dom().contains(#[trigger] deps[d]),
        !ranks.dom().contains(fresh),
    ensures
        sum_ranks(deps, ranks.insert(fresh, rank)) == sum_ranks(deps, ranks),
    decreases deps.len(),
{
    if deps.len() > 0 {
        assert(forall|d: int|
            0 <= d < deps.drop_first().len() ==> ranks.dom().contains(
                #[trigger] deps.drop_first()[d],
            ));
        lemma_sum_ranks_stable(deps.drop_first(), ranks, fresh, rank);
    }
}

/// Appending one more name adds its rank to the sum.
proof fn lemma_sum_ranks_push(deps: Seq<Seq<char>>, ranks: Map<Seq<char>, int>, x: Seq<char>)
    ensures
        sum_ranks(deps.push(x), ranks) == sum_ranks(deps, ranks) + ranks[x],
    decreases deps.len(),
{
    if deps.len() == 0 {
        assert(deps.push(x)[0] == x);
        assert(deps.push(x).drop_first() =~= Seq::<Seq<char>>::empty());
        assert(sum_ranks(deps.push(x).drop_first(), ranks) == 0);
        assert(sum_ranks(deps, ranks) == 0);
    } else {
        assert(deps.push(x)[0] == deps[0]);
        assert(deps.push(x).drop_first() =~= deps.drop_first().push(x));
        lemma_sum_ranks_push(deps.drop_first(), ranks, x);
        assert(sum_ranks(deps.push(x), ranks) == ranks[deps[0]] + sum_ranks(
            deps.drop_first().push(x),
            ranks,
        ));
        assert(sum_ranks(deps, ranks) == ranks[deps[0]] + sum_ranks(deps.drop_first(), ranks));
    }
}

/// A rank recorded for any summed name is no more than the whole sum, as
/// long as every rank is nonnegative.
proof fn lemma_sum_ranks_lower_bound(
    deps: Seq<Seq<char>>,
    ranks: Map<Seq<char>, int>,
    d: int,
)
    requires
        0 <= d < deps.len(),
        forall|e: int| 0 <= e < deps.len() ==> ranks.dom().contains(#[trigger] deps[e]),
        ranks_bounded(ranks),
    ensures
        ranks[deps[d]] <= sum_ranks(deps, ranks),
    decreases deps.len(),
{
    lemma_sum_ranks_nonneg(deps.drop_first(), ranks);
    if d > 0 {
        lemma_sum_ranks_lower_bound(deps.drop_first(), ranks, d - 1);
    }
}

/// A sum of recorded ranks is nonnegative.
proof fn lemma_sum_ranks_nonneg(deps: Seq<Seq<char>>, ranks: Map<Seq<char>, int>)
    requires
        forall|e: int| 0 <= e < deps.len() ==> ranks.dom().contains(#[trigger] deps[e]),
        ranks_bounded(ranks),
    ensures
        sum_ranks(deps, ranks) >= 0,
    decreases deps.len(),
{
    if deps.len() > 0 {
        lemma_sum_ranks_nonneg(deps.drop_first(), ranks);
    }
}

/// Look up the recorded rank of `name`.
fn lookup_rank(
    ordered: &Vec<RankedName>,
    name: &str,
    Ghost(ranks): Ghost<Map<Seq<char>, int>>,
) -> (r: Option<u128>)
    requires
        forall|i: int|
            0 <= i < ordered@.len() ==> ranks.dom().contains(#[trigger] rn_names(ordered@)[i])
                && ranks[rn_names(ordered@)[i]] == ordered@[i].rank as int,
    ensures
        match r {
            Some(v) => rn_names(ordered@).contains(name@) && v as int == ranks[name@],
            None => !rn_names(ordered@).contains(name@),
        },
{
    let n = ordered.len();
    let mut i: usize = 0;
    while i < n
        invariant
            n == ordered@.len(),
            0 <= i <= n,
            forall|i0: int|
                0 <= i0 < ordered@.len() ==> ranks.dom().contains(#[trigger] rn_names(ordered@)[i0])
                    && ranks[rn_names(ordered@)[i0]] == ordered@[i0].rank as int,
            forall|k: int| 0 <= k < i ==> rn_names(ordered@)[k] != name@,
        decreases n - i,
    {
        if str_eq(ordered[i].name.as_str(), name) {
            proof {
                assert(rn_names(ordered@)[i as int] == name@);
            }
            return Some(ordered[i].rank);
        }
        i += 1;
    }
    proof {
        assert forall|k: int| 0 <= k < rn_names(ordered@).len() implies rn_names(ordered@)[k]
            != name@ by {}
    }
    None
}

/// The outcome of summing a crate's dependency ranks.
enum DepSum {
    /// Some dependency is not ordered yet.
    Missing,
    /// The rank would exceed the rank limit.
    Overflow,
    /// The crate's rank: one more than the sum of its dependencies' ranks.
    Rank(u128),
}

/// Compute `1 + sum of dependency ranks`, reporting a missing dependency
/// or an overflow of the rank limit.
fn sum_dep_ranks(
    ordered: &Vec<RankedName>,
    deps: &Vec<String>,
    Ghost(ranks): Ghost<Map<Seq<char>, int>>,
) -> (r: DepSum)
    requires
        forall|i: int|
            0 <= i < ordered@.len() ==> ranks.dom().contains(#[trigger] rn_names(ordered@)[i])
                && ranks[rn_names(ordered@)[i]] == ordered@[i].rank as int,
        ranks_bounded(ranks),
    ensures
        match r {
            DepSum::Missing => exists|d: int|
                0 <= d < str_views(deps@).len() && !rn_names(ordered@).contains(
                    #[trigger] str_views(deps@)[d],
                ),
            DepSum::Overflow => (forall|d: int|
                0 <= d < str_views(deps@).len() ==> rn_names(ordered@).contains(
                    #[trigger] str_views(deps@)[d],
                )) ==> 1 + sum_ranks(str_views(deps@), ranks) > u128::MAX as int,
            DepSum::Rank(v) => (forall|d: int|
                0 <= d < str_views(deps@).len() ==> rn_names(ordered@).contains(
                    #[trigger] str_views(deps@)[d],
                )) && v as int == 1 + sum_ranks(str_views(deps@), ranks) && v >= 1,
        },
{
    let n = deps.len();
    let mut acc: u128 = 1;
    let mut d: usize = 0;
    proof {
        assert(str_views(deps@).take(0) =~= Seq::<Seq<char>>::empty());
    }
    while d < n
        invariant
            n == deps@.len(),
            0 <= d <= n,
            forall|i: int|
                0 <= i < ordered@.len() ==> ranks.dom().contains(#[trigger] rn_names(ordered@)[i])
                    && ranks[rn_names(ordered@)[i]] == ordered@[i].rank as int,
            ranks_bounded(ranks),
            forall|e: int|
                0 <= e < d ==> rn_names(ordered@).contains(#[trigger] str_views(deps@)[e]),
            acc as int == 1 + sum_ranks(str_views(deps@).take(d as int), ranks),
            acc >= 1,
        decreases n - d,
    {
        match lookup_rank(ordered, deps[d].as_str(), Ghost(ranks)) {
            None => {
                proof {
                    assert(!rn_names(ordered@).contains(str_views(deps@)[d as int]));
                }
                return DepSum::Missing;
            },
            Some(rank) => {
                proof {
                    assert(str_views(deps@).take(d + 1) =~= str_views(deps@).take(d as int).push(
                        str_views(deps@)[d as int],
                    ));
                    lemma_sum_ranks_push(str_views(deps@).take(d as int), ranks, str_views(deps@)[d as int]);
                }
                if rank > u128::MAX - acc {
                    proof {
                        if forall|e: int|
                            0 <= e < str_views(deps@).len() ==> rn_names(ordered@).contains(
                                #[trigger] str_views(deps@)[e],
                            ) {
                            assert forall|e: int|
                                0 <= e < str_views(deps@).len() implies ranks.dom().contains(
                                #[trigger] str_views(deps@)[e],
                            ) by {
                                assert(rn_names(ordered@).contains(str_views(deps@)[e]));
                                let w = choose|w: int|
                                    0 <= w < rn_names(ordered@).len() && rn_names(ordered@)[w]
                                        == str_views(deps@)[e];
                                assert(ranks.dom().contains(rn_names(ordered@)[w]));
                            }
                            lemma_sum_ranks_overflow_monotone(str_views(deps@), ranks, d as int);
                        }
                    }
                    return DepSum::Overflow;
                }
                acc = acc + rank;
            },
        }
        d += 1;
    }
    proof {
        assert(str_views(deps@).take(n as int) =~= str_views(deps@));
    }
    DepSum::Rank(acc)
}

/// Once a prefix of the dependency sum exceeds the rank limit, the whole
/// sum does: the remaining summands are nonnegative.
proof fn lemma_sum_ranks_overflow_monotone(
    deps: Seq<Seq<char>>,
    ranks: Map<Seq<char>, int>,
    d: int,
)
    requires
        0 <= d < deps.len(),
        forall|e: int| 0 <= e < deps.len() ==> ranks.dom().contains(#[trigger] deps[e]),
        ranks_bounded(ranks),
    ensures
        sum_ranks(deps, ranks) >= sum_ranks(deps.take(d), ranks) + ranks[deps[d]],
    decreases deps.len(),
{
    if d == 0 {
        assert(deps.take(0) =~= Seq::<Seq<char>>::empty());
        lemma_sum_ranks_nonneg(deps.drop_first(), ranks);
        assert(sum_ranks(deps, ranks) == ranks[deps[0]] + sum_ranks(deps.drop_first(), ranks));
    } else {
        lemma_sum_ranks_overflow_monotone(deps.drop_first(), ranks, d - 1);
        assert(deps.take(d).drop_first() =~= deps.drop_first().take(d - 1));
        assert(sum_ranks(deps.take(d), ranks) == ranks[deps[0]] + sum_ranks(
            deps.drop_first().take(d - 1),
            ranks,
        ));
    }
}

} // verus!

verus! {

/// Whether the ranked list already holds `name`.
fn contains_rn(ordered: &Vec<RankedName>, name: &str) -> (r: bool)
    ensures
        r == rn_names(ordered@).contains(name@),
{
    let n = ordered.len();
    let mut i: usize = 0;
    while i < n
        invariant
            n == ordered@.len(),
            0 <= i <= n,
            forall|k: int| 0 <= k < i ==> rn_names(ordered@)[k] != name@,
        decreases n - i,
    {
        if str_eq(ordered[i].name.as_str(), name) {
            proof {
                assert(rn_names(ordered@)[i as int] == name@);
            }
            return true;
        }
        i += 1;
    }
    proof {
        assert forall|k: int| 0 <= k < rn_names(ordered@).len() implies rn_names(ordered@)[k]
            != name@ by {}
    }
    false
}

/// A name listed among `names` is in the rank map's domain.
proof fn lemma_name_in_dom(names: Seq<Seq<char>>, ranks: Map<Seq<char>, int>, n: Seq<char>)
    requires
        forall|i: int| 0 <= i < names.len() ==> ranks.dom().contains(#[trigger] names[i]),
        names.contains(n),
    ensures
        ranks.dom().contains(n),
{
    let i = choose|i: int| 0 <= i < names.len() && names[i] == n;
    assert(ranks.dom().contains(names[i]));
}

/// Rank every crate that can be ranked: repeat passes over the workspace,
/// ranking each crate whose publish-relevant dependencies are all ranked,
/// until a full pass makes no progress.
fn compute_ranks(details: &Vec<CrateDetails>) -> (r: (Vec<RankedName>, Ghost<
    Map<Seq<char>, int>,
>))
    requires
        crate_names(details@).no_duplicates(),
    ensures
        ({
            let names = rn_names(r.0@);
            let ranks = r.1@;
            &&& forall|i: int|
                0 <= i < r.0@.len() ==> ranks.dom().contains(#[trigger] rn_names(r.0@)[i])
                    && ranks[rn_names(r.0@)[i]] == r.0@[i].rank as int
            &&& names.no_duplicates()
            &&& forall|i: int|
                0 <= i < names.len() ==> crate_names(details@).contains(#[trigger] names[i])
            &&& dom_matches(names, ranks)
            &&& ranks_bounded(ranks)
            &&& rank_consistent(details@, names, ranks)
            &&& order_saturated(details@, names, ranks)
        }),
{
    let n = details.len();
    let mut ordered: Vec<RankedName> = Vec::new();
    let ghost mut ranks: Map<Seq<char>, int> = Map::empty();
    proof {
        assert(rn_names(ordered@) =~= Seq::<Seq<char>>::empty());
    }
    loop
        invariant
            n == details@.len(),
            crate_names(details@).no_duplicates(),
            forall|i: int|
                0 <= i < ordered@.len() ==> ranks.dom().contains(#[trigger] rn_names(ordered@)[i])
                    && ranks[rn_names(ordered@)[i]] == ordered@[i].rank as int,
            rn_names(ordered@).no_duplicates(),
            forall|i: int|
                0 <= i < ordered@.len() ==> crate_names(details@).contains(
                    #[trigger] rn_names(ordered@)[i],
                ),
            dom_matches(rn_names(ordered@), ranks),
            ranks_bounded(ranks),
            rank_consistent(details@, rn_names(ordered@), ranks),
            ordered@.len() <= n,
        ensures
            n == details@.len(),
            forall|i: int|
                0 <= i < ordered@.len() ==> ranks.dom().contains(#[trigger] rn_names(ordered@)[i])
                    && ranks[rn_names(ordered@)[i]] == ordered@[i].rank as int,
            rn_names(ordered@).no_duplicates(),
            forall|i: int|
                0 <= i < ordered@.len() ==> crate_names(details@).contains(
                    #[trigger] rn_names(ordered@)[i],
                ),
            dom_matches(rn_names(ordered@), ranks),
            ranks_bounded(ranks),
            rank_consistent(details@, rn_names(ordered@), ranks),
            order_saturated(details@, rn_names(ordered@), ranks),
        decreases n - ordered@.len(),
    {
        let ghost start_len = ordered@.len();
        let mut progressed = false;
        let mut idx: usize = 0;
        while idx < n
            invariant
                n == details@.len(),
                crate_names(details@).no_duplicates(),
                0 <= idx <= n,
                forall|i: int|
                    0 <= i < ordered@.len() ==> ranks.dom().contains(
                        #[trigger] rn_names(ordered@)[i],
                    ) && ranks[rn_names(ordered@)[i]] == ordered@[i].rank as int,
                rn_names(ordered@).no_duplicates(),
                forall|i: int|
                    0 <= i < ordered@.len() ==> crate_names(details@).contains(
                        #[trigger] rn_names(ordered@)[i],
                    ),
                dom_matches(rn_names(ordered@), ranks),
                ranks_bounded(ranks),
                rank_consistent(details@, rn_names(ordered@), ranks),
                ordered@.len() <= n,
                ordered@.len() >= start_len,
                progressed ==> ordered@.len() > start_len,
                !progressed ==> (forall|k: int|
                    0 <= k < idx ==> saturated_at(details@, k, rn_names(ordered@), ranks)),
            decreases n - idx,
        {
            let c = &details[idx];
            let already = contains_rn(&ordered, c.name.as_str());
            if !already {
                match sum_dep_ranks(&ordered, &c.deps, Ghost(ranks)) {
                    DepSum::Rank(v) => {
                        let ghost pre = ordered@;
                        let ghost pre_ranks = ranks;
                        let ghost new_name = details@[idx as int].name@;
                        ordered.push(RankedName { name: clone_string(&c.name), rank: v });
                        proof {
                            ranks = ranks.insert(new_name, v as int);
                            assert(rn_names(ordered@) =~= rn_names(pre).push(new_name));
                            assert(!ranks.dom().contains(new_name) || true);
                            assert(!pre_ranks.dom().contains(new_name)) by {
                                if pre_ranks.dom().contains(new_name) {
                                    assert(rn_names(pre).contains(new_name));
                                }
                            }
                            // The dependency ranks all sit in the old map.
                            assert forall|d: int|
                                0 <= d < details@[idx as int].spec_deps().len() implies pre_ranks.dom().contains(
                                #[trigger] details@[idx as int].spec_deps()[d],
                            ) by {
                                assert(rn_names(pre).contains(details@[idx as int].spec_deps()[d]));
                                lemma_name_in_dom(
                                    rn_names(pre),
                                    pre_ranks,
                                    details@[idx as int].spec_deps()[d],
                                );
                            }
                            lemma_sum_ranks_stable(
                                details@[idx as int].spec_deps(),
                                pre_ranks,
                                new_name,
                                v as int,
                            );
                            // Distinctness of the extended name list.
                            assert forall|a: int, b: int|
                                0 <= a < b < rn_names(ordered@).len() implies rn_names(ordered@)[a]
                                != rn_names(ordered@)[b] by {
                                if b == rn_names(ordered@).len() - 1 {
                                    assert(!rn_names(pre).contains(new_name));
                                    assert(rn_names(ordered@)[a] == rn_names(pre)[a]);
                                }
                            }
                            // Rank consistency for every ordered crate.
                            assert forall|k: int|
                                0 <= k < details@.len() && rn_names(ordered@).contains(
                                    (#[trigger] details@[k]).name@,
                                ) implies {
                                &&& forall|d: int|
                                    0 <= d < details@[k].spec_deps().len() ==> ranks.dom().contains(
                                        #[trigger] details@[k].spec_deps()[d],
                                    )
                                &&& ranks[details@[k].name@] == 1 + sum_ranks(
                                    details@[k].spec_deps(),
                                    ranks,
                                )
                            } by {
                                if details@[k].name@ == new_name {
                                    assert(crate_names(details@)[k] == crate_names(
                                        details@,
                                    )[idx as int]);
                                    assert(k == idx as int);
                                    assert(ranks[new_name] == v as int);
                                } else {
                                    assert(rn_names(pre).contains(details@[k].name@)) by {
                                        let w = choose|w: int|
                                            0 <= w < rn_names(ordered@).len() && rn_names(
                                                ordered@,
                                            )[w] == details@[k].name@;
                                        assert(rn_names(pre)[w] == details@[k].name@);
                                    }
                                    assert forall|d: int|
                                        0 <= d < details@[k].spec_deps().len() implies pre_ranks.dom().contains(
                                        #[trigger] details@[k].spec_deps()[d],
                                    ) by {}
                                    lemma_sum_ranks_stable(
                                        details@[k].spec_deps(),
                                        pre_ranks,
                                        new_name,
                                        v as int,
                                    );
                                }
                            }
                            assert forall|i: int|
                                0 <= i < ordered@.len() implies ranks.dom().contains(
                                #[trigger] rn_names(ordered@)[i],
                            ) by {
                                if i < pre.len() {
                                    assert(rn_names(ordered@)[i] == rn_names(pre)[i]);
                                } else {
                                    assert(rn_names(ordered@)[i] == new_name);
                                }
                            }
                            assert forall|nm: Seq<char>| ranks.dom().contains(nm) implies rn_names(
                                ordered@,
                            ).contains(nm) by {
                                if nm == new_name {
                                    assert(rn_names(ordered@).last() == new_name);
                                } else {
                                    assert(pre_ranks.dom().contains(nm));
                                    assert(rn_names(pre).contains(nm));
                                    let w = choose|w: int|
                                        0 <= w < rn_names(pre).len() && rn_names(pre)[w] == nm;
                                    assert(rn_names(ordered@)[w] == nm);
                                }
                            }
                            assert(crate_names(details@)[idx as int] == new_name);
                            assert forall|i: int|
                                0 <= i < ordered@.len() implies crate_names(details@).contains(
                                #[trigger] rn_names(ordered@)[i],
                            ) by {
                                if i < pre.len() {
                                    assert(rn_names(ordered@)[i] == rn_names(pre)[i]);
                                } else {
                                    assert(rn_names(ordered@)[i] == new_name);
                                    assert(crate_names(details@).contains(new_name));
                                }
                            }
                            lemma_distinct_subset_len(rn_names(ordered@), crate_names(details@));
                        }
                        progressed = true;
                    },
                    DepSum::Missing => {
                        proof {
                            assert(saturated_at(details@, idx as int, rn_names(ordered@), ranks));
                        }
                    },
                    DepSum::Overflow => {
                        proof {
                            assert(saturated_at(details@, idx as int, rn_names(ordered@), ranks));
                        }
                    },
                }
            }
            idx += 1;
        }
        if !progressed {
            break;
        }
    }
    (ordered, Ghost(ranks))
}

} // verus!

verus! {

/// The sort key order on ranked crates: by rank, then by name, reflexive.
spec fn key_le(a: RankedName, b: RankedName) -> bool {
    a.rank < b.rank || (a.rank == b.rank && (lex_lt(a.name@, b.name@) || a.name@ == b.name@))
}

proof fn lemma_key_le_total(a: RankedName, b: RankedName)
    ensures
        key_le(a, b) || key_le(b, a),
{
    lemma_lex_lt_trichotomy(a.name@, b.name@);
}

proof fn lemma_key_le_trans(a: RankedName, b: RankedName, c: RankedName)
    requires
        key_le(a, b),
        key_le(b, c),
    ensures
        key_le(a, c),
{
    if a.rank == b.rank && b.rank == c.rank {
        if lex_lt(a.name@, b.name@) && lex_lt(b.name@, c.name@) {
            lemma_lex_lt_transitive(a.name@, b.name@, c.name@);
        }
    }
}

/// Decide `key_le`.
fn key_le_exec(a: &RankedName, b: &RankedName) -> (r: bool)
    ensures
        r == key_le(*a, *b),
{
    if a.rank != b.rank {
        a.rank < b.rank
    } else if str_eq(a.name.as_str(), b.name.as_str()) {
        true
    } else {
        str_lex_lt(a.name.as_str(), b.name.as_str())
    }
}

/// Sort the ranked crates ascending by rank with the name as tiebreak,
/// keeping exactly the same entries.
fn sort_ranked(
    input: &Vec<RankedName>,
    Ghost(ranks): Ghost<Map<Seq<char>, int>>,
    Ghost(all_names): Ghost<Seq<Seq<char>>>,
) -> (out: Vec<RankedName>)
    requires
        forall|i: int|
            0 <= i < input@.len() ==> ranks.dom().contains(#[trigger] rn_names(input@)[i])
                && ranks[rn_names(input@)[i]] == input@[i].rank as int,
        rn_names(input@).no_duplicates(),
        forall|i: int|
            0 <= i < input@.len() ==> all_names.contains(#[trigger] rn_names(input@)[i]),
    ensures
        forall|i: int|
            0 <= i < out@.len() ==> ranks.dom().contains(#[trigger] rn_names(out@)[i])
                && ranks[rn_names(out@)[i]] == out@[i].rank as int,
        rn_names(out@).no_duplicates(),
        forall|i: int| 0 <= i < out@.len() ==> all_names.contains(#[trigger] rn_names(out@)[i]),
        forall|nm: Seq<char>| rn_names(out@).contains(nm) <==> rn_names(input@).contains(nm),
        forall|i: int, j: int| 0 <= i < j < out@.len() ==> key_le(out@[i], out@[j]),
{
    let n = input.len();
    let mut out: Vec<RankedName> = Vec::new();
    let mut i: usize = 0;
    proof {
        assert(rn_names(out@) =~= Seq::<Seq<char>>::empty());
        assert(rn_names(input@).take(0) =~= Seq::<Seq<char>>::empty());
    }
    while i < n
        invariant
            n == input@.len(),
            0 <= i <= n,
            forall|k: int|
                0 <= k < input@.len() ==> ranks.dom().contains(#[trigger] rn_names(input@)[k])
                    && ranks[rn_names(input@)[k]] == input@[k].rank as int,
            rn_names(input@).no_duplicates(),
            forall|k: int|
                0 <= k < input@.len() ==> all_names.contains(#[trigger] rn_names(input@)[k]),
            forall|k: int|
                0 <= k < out@.len() ==> ranks.dom().contains(#[trigger] rn_names(out@)[k])
                    && ranks[rn_names(out@)[k]] == out@[k].rank as int,
            rn_names(out@).no_duplicates(),
            forall|k: int| 0 <= k < out@.len() ==> all_names.contains(#[trigger] rn_names(out@)[k]),
            forall|nm: Seq<char>|
                rn_names(out@).contains(nm) <==> rn_names(input@).take(i as int).contains(nm),
            forall|a: int, b: int| 0 <= a < b < out@.len() ==> key_le(out@[a], out@[b]),
        decreases n - i,
    {
        let item = RankedName { name: clone_string(&input[i].name), rank: input[i].rank };
        proof {
            assert(item.name@ == rn_names(input@)[i as int]);
        }
        // Find the insertion position: the first entry that must follow
        // the new item.
        let m = out.len();
        let mut p: usize = 0;
        while p < m
            invariant
                m == out@.len(),
                0 <= p <= m,
                forall|q: int| 0 <= q < p ==> key_le(out@[q], item),
            ensures
                m == out@.len(),
                0 <= p <= m,
                forall|q: int| 0 <= q < p ==> key_le(out@[q], item),
                p < m ==> !key_le(out@[p as int], item),
            decreases m - p,
        {
            if !key_le_exec(&out[p], &item) {
                break;
            }
            p += 1;
        }
        let ghost pre = out@;
        let ghost pos = p as int;
        out.insert(p, item);
        proof {
            assert(out@ =~= pre.take(pos) + seq![item] + pre.skip(pos));
            assert(rn_names(out@) =~= rn_names(pre).take(pos) + seq![item.name@] + rn_names(
                pre,
            ).skip(pos));
            // Entry-wise facts survive the insertion.
            assert forall|k: int|
                0 <= k < out@.len() implies ranks.dom().contains(#[trigger] rn_names(out@)[k])
                    && ranks[rn_names(out@)[k]] == out@[k].rank as int && all_names.contains(
                    rn_names(out@)[k],
                ) by {
                if k < pos {
                    assert(out@[k] == pre[k]);
                    assert(rn_names(out@)[k] == rn_names(pre)[k]);
                } else if k == pos {
                    assert(out@[k] == item);
                    assert(rn_names(out@)[k] == rn_names(input@)[i as int]);
                } else {
                    assert(out@[k] == pre[k - 1]);
                    assert(rn_names(out@)[k] == rn_names(pre)[k - 1]);
                }
            }
            // The new name was not present, so distinctness is kept.
            assert(!rn_names(pre).contains(item.name@)) by {
                if rn_names(pre).contains(item.name@) {
                    let w = choose|w: int|
                        0 <= w < rn_names(pre).len() && rn_names(pre)[w] == item.name@;
                    assert(rn_names(input@).take(i as int).contains(item.name@));
                    let v = choose|v: int|
                        0 <= v < i && rn_names(input@).take(i as int)[v] == item.name@;
                    assert(rn_names(input@)[v] == rn_names(input@)[i as int]);
                }
            }
            assert forall|a: int, b: int|
                0 <= a < b < rn_names(out@).len() implies rn_names(out@)[a] != rn_names(
                out@,
            )[b] by {
                let na = rn_names(out@)[a];
                let nb = rn_names(out@)[b];
                let a0 = if a < pos {
                    a
                } else if a == pos {
                    -1
                } else {
                    a - 1
                };
                let b0 = if b < pos {
                    b
                } else if b == pos {
                    -1
                } else {
                    b - 1
                };
                if a0 >= 0 && b0 >= 0 {
                    assert(na == rn_names(pre)[a0] && nb == rn_names(pre)[b0]);
                } else if a0 == -1 {
                    assert(na == item.name@ && nb == rn_names(pre)[b0]);
                    assert(!rn_names(pre).contains(item.name@));
                } else {
                    assert(nb == item.name@ && na == rn_names(pre)[a0]);
                    assert(!rn_names(pre).contains(item.name@));
                }
            }
            // Same name set as the consumed prefix.
            assert forall|nm: Seq<char>|
                rn_names(out@).contains(nm) <==> rn_names(input@).take(i + 1).contains(nm) by {
                assert(rn_names(input@).take(i + 1) =~= rn_names(input@).take(i as int).push(
                    item.name@,
                ));
                if rn_names(out@).contains(nm) {
                    let w = choose|w: int|
                        0 <= w < rn_names(out@).len() && rn_names(out@)[w] == nm;
                    if w == pos {
                        assert(rn_names(input@).take(i + 1).last() == nm);
                    } else {
                        let w0 = if w < pos {
                            w
                        } else {
                            w - 1
                        };
                        assert(rn_names(pre)[w0] == nm);
                        assert(rn_names(pre).contains(nm));
                        assert(rn_names(input@).take(i as int).contains(nm));
                        let v = choose|v: int|
                            0 <= v < i && rn_names(input@).take(i as int)[v] == nm;
                        assert(rn_names(input@).take(i + 1)[v] == nm);
                    }
                }
                if rn_names(input@).take(i + 1).contains(nm) {
                    let v = choose|v: int|
                        0 <= v <= i as int && #[trigger] rn_names(input@).take(i + 1)[v] == nm;
                    if v == i {
                        assert(rn_names(out@)[pos] == nm);
                    } else {
                        assert(rn_names(input@).take(i as int)[v] == nm);
                        assert(rn_names(pre).contains(nm));
                        let w = choose|w: int|
                            0 <= w < rn_names(pre).len() && rn_names(pre)[w] == nm;
                        if w < pos {
                            assert(rn_names(out@)[w] == nm);
                        } else {
                            assert(rn_names(out@)[w + 1] == nm);
                        }
                    }
                }
            }
            // Sortedness: entries before the insertion point stay below the
            // item, the item sits below everything from the insertion point.
            assert forall|a: int, b: int|
                0 <= a < b < out@.len() implies key_le(out@[a], out@[b]) by {
                let a0 = if a < pos {
                    a
                } else if a == pos {
                    -1
                } else {
                    a - 1
                };
                let b0 = if b < pos {
                    b
                } else if b == pos {
                    -1
                } else {
                    b - 1
                };
                if a0 >= 0 && b0 >= 0 {
                    assert(out@[a] == pre[a0] && out@[b] == pre[b0]);
                } else if b0 == -1 {
                    // a < pos: everything scanned past is at or below item.
                    assert(out@[a] == pre[a0]);
                    assert(key_le(pre[a0], item));
                } else {
                    // a == pos: item precedes the entry that stopped the scan
                    // and, by transitivity, everything after it.
                    assert(out@[a] == item && out@[b] == pre[b0]);
                    if pos < pre.len() {
                        assert(!key_le(pre[pos], item));
                        lemma_key_le_total(pre[pos], item);
                        if b0 > pos {
                            lemma_key_le_trans(item, pre[pos], pre[b0]);
                        }
                    }
                }
            }
        }
        i += 1;
    }
    proof {
        assert(rn_names(input@).take(n as int) =~= rn_names(input@));
    }
    out
}

/// Compute the publish order: every rankable crate, ascending by rank with
/// the crate name as tiebreak. A crate in a dependency cycle is absent;
/// every listed crate appears after all of its publish-relevant
/// dependencies.
pub fn get_publish_order(details: &Vec<CrateDetails>) -> (r: Vec<String>)
    requires
        crate_names(details@).no_duplicates(),
    ensures
        topologically_sorted(details@, str_views(r@)),
        exists|ranks: Map<Seq<char>, int>| publish_order_spec(details@, str_views(r@), ranks),
{
    let (ranked, ranks_g) = compute_ranks(details);
    let ghost ranks = ranks_g@;
    let sorted = sort_ranked(&ranked, Ghost(ranks), Ghost(crate_names(details@)));
    let m = sorted.len();
    let mut r: Vec<String> = Vec::new();
    let mut i: usize = 0;
    proof {
        assert(str_views(r@) =~= rn_names(sorted@).take(0));
    }
    while i < m
        invariant
            m == sorted@.len(),
            0 <= i <= m,
            str_views(r@) =~= rn_names(sorted@).take(i as int),
        decreases m - i,
    {
        let ghost old_r = r@;
        r.push(clone_string(&sorted[i].name));
        proof {
            assert(str_views(r@) =~= str_views(old_r).push(rn_names(sorted@)[i as int]));
            assert(rn_names(sorted@).take(i + 1) =~= rn_names(sorted@).take(i as int).push(
                rn_names(sorted@)[i as int],
            ));
            assert(str_views(r@) =~= rn_names(sorted@).take(i + 1));
        }
        i += 1;
    }
    proof {
        assert(str_views(r@) =~= rn_names(sorted@));
        let names = str_views(r@);
        let in_names = rn_names(ranked@);
        // The spec clauses carry from the unsorted list to the sorted one,
        // since the two hold the same name set.
        assert(dom_matches(names, ranks)) by {
            assert forall|nm: Seq<char>| ranks.dom().contains(nm) implies names.contains(nm) by {
                assert(in_names.contains(nm));
            }
        }
        assert(rank_consistent(details@, names, ranks)) by {
            assert forall|k: int|
                0 <= k < details@.len() && names.contains((#[trigger] details@[k]).name@) implies {
                &&& forall|d: int|
                    0 <= d < details@[k].spec_deps().len() ==> ranks.dom().contains(
                        #[trigger] details@[k].spec_deps()[d],
                    )
                &&& ranks[details@[k].name@] == 1 + sum_ranks(details@[k].spec_deps(), ranks)
            } by {
                assert(in_names.contains(details@[k].name@));
            }
        }
        assert(order_saturated(details@, names, ranks)) by {
            assert forall|k: int| 0 <= k < details@.len() implies saturated_at(
                details@,
                k,
                names,
                ranks,
            ) by {
                assert(saturated_at(details@, k, in_names, ranks));
                if in_names.contains(details@[k].name@) {
                    assert(names.contains(details@[k].name@));
                } else {
                    if (forall|d: int|
                        0 <= d < details@[k].spec_deps().len() ==> names.contains(
                            #[trigger] details@[k].spec_deps()[d],
                        )) {
                        assert forall|d: int|
                            0 <= d < details@[k].spec_deps().len() implies in_names.contains(
                            #[trigger] details@[k].spec_deps()[d],
                        ) by {
                            assert(names.contains(details@[k].spec_deps()[d]));
                        }
                    }
                }
            }
        }
        assert(rank_sorted(names, ranks)) by {
            assert forall|a: int, b: int| 0 <= a < b < names.len() implies rank_name_lt(
                ranks[#[trigger] names[a]],
                names[a],
                ranks[#[trigger] names[b]],
                names[b],
            ) by {
                assert(key_le(sorted@[a], sorted@[b]));
                assert(names[a] != names[b]);
                assert(ranks[names[a]] == sorted@[a].rank as int);
                assert(ranks[names[b]] == sorted@[b].rank as int);
            }
        }
        assert(publish_order_spec(details@, str_views(r@), ranks));
        lemma_publish_order_topological(details@, names, ranks);
    }
    r
}

/// The solver's contract forces the topological property: every listed
/// crate's dependencies carry strictly smaller ranks, so the rank-sorted
/// order lists them strictly earlier.
pub proof fn lemma_publish_order_topological(
    details: Seq<CrateDetails>,
    names: Seq<Seq<char>>,
    ranks: Map<Seq<char>, int>,
)
    requires
        publish_order_spec(details, names, ranks),
    ensures
        topologically_sorted(details, names),
{
    assert forall|i0: int, k: int|
        0 <= i0 < names.len() && 0 <= k < details.len() && (#[trigger] details[k]).name@ == (
        #[trigger] names[i0]) implies deps_before(details[k].spec_deps(), names, i0) by {
        assert(names.contains(details[k].name@));
        assert forall|d: int|
            0 <= d < details[k].spec_deps().len() implies exists|j: int|
                0 <= j < i0 && names[j] == #[trigger] details[k].spec_deps()[d] by {
            let dep = details[k].spec_deps()[d];
            assert(ranks.dom().contains(dep));
            assert(names.contains(dep));
            let j = choose|j: int| 0 <= j < names.len() && names[j] == dep;
            // The dependency's rank is strictly below the crate's.
            lemma_sum_ranks_lower_bound(details[k].spec_deps(), ranks, d);
            assert(ranks[dep] < ranks[details[k].name@]);
            if j > i0 {
                assert(rank_name_lt(ranks[names[i0]], names[i0], ranks[names[j]], names[j]));
                assert(false);
            }
            if j == i0 {
                assert(false);
            }
            assert(names[j] == dep && 0 <= j < i0);
        }
    }
}

} // verus!

verus! {

/// Two to the power `i` (one at zero and below).
spec fn rank_cap(i: int) -> int
    decreases i,
{
    if i <= 0 {
        1
    } else {
        2 * rank_cap(i - 1)
    }
}

proof fn lemma_rank_cap_positive(i: int)
    ensures
        rank_cap(i) >= 1,
    decreases i,
{
    if i > 0 {
        lemma_rank_cap_positive(i - 1);
    }
}

proof fn lemma_rank_cap_monotone(a: int, b: int)
    requires
        a <= b,
    ensures
        rank_cap(a) <= rank_cap(b),
    decreases b - a,
{
    if a < b {
        lemma_rank_cap_monotone(a, b - 1);
        lemma_rank_cap_positive(b - 1);
    }
}

/// Removing one name takes its rank out of the sum.
proof fn lemma_sum_ranks_remove(ds: Seq<Seq<char>>, ranks: Map<Seq<char>, int>, idx: int)
    requires
        0 <= idx < ds.len(),
    ensures
        sum_ranks(ds, ranks) == sum_ranks(ds.remove(idx), ranks) + ranks[ds[idx]],
    decreases idx,
{
    if idx == 0 {
        assert(ds.remove(0) =~= ds.drop_first());
    } else {
        assert(ds.remove(idx).drop_first() =~= ds.drop_first().remove(idx - 1));
        lemma_sum_ranks_remove(ds.drop_first(), ranks, idx - 1);
        assert(ds.remove(idx)[0] == ds[0]);
    }
}

/// A sum over distinct names drawn from the first `i` entries of a
/// distinct listing, each rank capped by its position, is below the cap of
/// `i + 1`, less two.
proof fn lemma_subset_sum(
    ds: Seq<Seq<char>>,
    w: Seq<Seq<char>>,
    i: int,
    ranks: Map<Seq<char>, int>,
)
    requires
        ds.no_duplicates(),
        0 <= i <= w.len(),
        w.no_duplicates(),
        forall|d: int| 0 <= d < ds.len() ==> w.take(i).contains(#[trigger] ds[d]),
        forall|j: int| 0 <= j < i ==> ranks[#[trigger] w[j]] <= rank_cap(j + 1),
        forall|j: int| 0 <= j < i ==> ranks[#[trigger] w[j]] >= 0,
    ensures
        sum_ranks(ds, ranks) <= rank_cap(i + 1) - 2,
    decreases i,
{
    if i == 0 {
        assert(ds.len() == 0) by {
            if ds.len() > 0 {
                assert(w.take(0).contains(ds[0]));
            }
        }
        assert(sum_ranks(ds, ranks) == 0);
    } else {
        if ds.contains(w[i - 1]) {
            let idx = choose|idx: int| 0 <= idx < ds.len() && ds[idx] == w[i - 1];
            let ds2 = ds.remove(idx);
            lemma_sum_ranks_remove(ds, ranks, idx);
            // The remaining names are distinct and avoid `w[i - 1]`.
            assert forall|a: int, b: int|
                0 <= a < b < ds2.len() implies ds2[a] != ds2[b] by {
                let a0 = if a < idx {
                    a
                } else {
                    a + 1
                };
                let b0 = if b < idx {
                    b
                } else {
                    b + 1
                };
                assert(ds2[a] == ds[a0] && ds2[b] == ds[b0]);
            }
            assert forall|d: int| 0 <= d < ds2.len() implies w.take(i - 1).contains(
                #[trigger] ds2[d],
            ) by {
                let d0 = if d < idx {
                    d
                } else {
                    d + 1
                };
                assert(ds2[d] == ds[d0]);
                assert(ds[d0] != ds[idx]);
                assert(w.take(i).contains(ds[d0]));
                let j = choose|j: int| 0 <= j < i && w.take(i)[j] == ds[d0];
                assert(w[j] == ds[d0]);
                assert(j != i - 1);
                assert(w.take(i - 1)[j] == ds[d0]);
            }
            lemma_subset_sum(ds2, w, i - 1, ranks);
            lemma_rank_cap_positive(i - 1);
            assert(ranks[w[i - 1]] <= rank_cap(i));
            assert(sum_ranks(ds, ranks) <= (rank_cap(i) - 2) + rank_cap(i));
        } else {
            assert forall|d: int| 0 <= d < ds.len() implies w.take(i - 1).contains(
                #[trigger] ds[d],
            ) by {
                assert(w.take(i).contains(ds[d]));
                let j = choose|j: int| 0 <= j < i && w.take(i)[j] == ds[d];
                assert(w[j] == ds[d]);
                assert(j != i - 1) by {
                    if j == i - 1 {
                        assert(ds.contains(w[i - 1]));
                    }
                }
                assert(w.take(i - 1)[j] == ds[d]);
            }
            lemma_subset_sum(ds, w, i - 1, ranks);
            lemma_rank_cap_positive(i - 1);
        }
    }
}

/// Every crate listed in the first `i` entries of the acyclicity witness
/// is ordered, with its rank below the cap of its position.
proof fn lemma_order_complete_upto(
    details: Seq<CrateDetails>,
    names: Seq<Seq<char>>,
    ranks: Map<Seq<char>, int>,
    w: Seq<Seq<char>>,
    i: int,
)
    requires
        publish_order_spec(details, names, ranks),
        forall|k: int| 0 <= k < details.len() ==> (#[trigger] details[k]).wf(),
        crate_names(details).no_duplicates(),
        details.len() <= 120,
        w.no_duplicates(),
        w.len() <= details.len(),
        forall|j: int| 0 <= j < w.len() ==> crate_names(details).contains(#[trigger] w[j]),
        topologically_sorted(details, w),
        0 <= i <= w.len(),
    ensures
        forall|j: int|
            0 <= j < i ==> names.contains(#[trigger] w[j]) && ranks[w[j]] <= rank_cap(j + 1),
    decreases i,
{
    if i > 0 {
        lemma_order_complete_upto(details, names, ranks, w, i - 1);
        let nm = w[i - 1];
        assert(crate_names(details).contains(nm));
        let k = choose|k: int| 0 <= k < crate_names(details).len() && crate_names(details)[k] == nm;
        assert(details[k].name@ == nm);
        let deps = details[k].spec_deps();
        assert(deps_before(deps, w, i - 1));
        // Every dependency sits earlier in the witness, so it is already
        // ordered and its rank is recorded and capped.
        assert forall|d: int| 0 <= d < deps.len() implies names.contains(#[trigger] deps[d])
            && w.take(i - 1).contains(deps[d]) by {
            let j = choose|j: int| 0 <= j < i - 1 && w[j] == deps[d];
            assert(names.contains(w[j]) && ranks[w[j]] <= rank_cap(j + 1));
            assert(w.take(i - 1)[j] == deps[d]);
        }
        assert forall|j: int| 0 <= j < i - 1 implies ranks[#[trigger] w[j]] >= 0 by {
            assert(names.contains(w[j]));
            lemma_name_in_dom_order(names, ranks, w[j]);
        }
        lemma_subset_sum(deps, w, i - 1, ranks);
        // The whole sum fits well below the rank limit.
        lemma_rank_cap_monotone(i, 121);
        lemma_rank_cap_121_fits();
        assert(1 + sum_ranks(deps, ranks) <= rank_cap(i) - 1);
        assert(rank_cap(i) - 1 <= rank_cap(121) - 1);
        assert(1 + sum_ranks(deps, ranks) <= u128::MAX as int);
        // Saturation then forces the crate into the order.
        assert(saturated_at(details, k, names, ranks));
        assert(names.contains(nm));
        // And rank consistency caps its recorded rank.
        assert(ranks[nm] == 1 + sum_ranks(deps, ranks));
        assert(ranks[nm] <= rank_cap(i));
    }
}

/// A name among the ordered ones is in the rank map's domain.
proof fn lemma_name_in_dom_order(names: Seq<Seq<char>>, ranks: Map<Seq<char>, int>, nm: Seq<char>)
    requires
        forall|i: int| 0 <= i < names.len() ==> ranks.dom().contains(#[trigger] names[i]),
        forall|n: Seq<char>|
            ranks.dom().contains(n) ==> 1 <= #[trigger] ranks[n] <= u128::MAX as int,
        names.contains(nm),
    ensures
        ranks.dom().contains(nm),
        1 <= ranks[nm],
{
    let i = choose|i: int| 0 <= i < names.len() && names[i] == nm;
    assert(ranks.dom().contains(names[i]));
}

/// The cap of the workspace-size bound sits far below the rank limit.
proof fn lemma_rank_cap_121_fits()
    ensures
        rank_cap(121) - 1 <= u128::MAX as int,
{
    // The cap is evaluated by unfolding one doubling per step.
    assert(rank_cap(0) == 1);
    assert(rank_cap(1) == 0x2int);
    assert(rank_cap(2) == 0x4int);
    assert(rank_cap(3) == 0x8int);
    assert(rank_cap(4) == 0x10int);
    assert(rank_cap(5) == 0x20int);
    assert(rank_cap(6) == 0x40int);
    assert(rank_cap(7) == 0x80int);
    assert(rank_cap(8) == 0x100int);
    assert(rank_cap(9) == 0x200int);
    assert(rank_cap(10) == 0x400int);
    assert(rank_cap(11) == 0x800int);
    assert(rank_cap(12) == 0x1000int);
    assert(rank_cap(13) == 0x2000int);
    assert(rank_cap(14) == 0x4000int);
    assert(rank_cap(15) == 0x8000int);
    assert(rank_cap(16) == 0x10000int);
    assert(rank_cap(17) == 0x20000int);
    assert(rank_cap(18) == 0x40000int);
    assert(rank_cap(19) == 0x80000int);
    assert(rank_cap(20) == 0x100000int);
    assert(rank_cap(21) == 0x200000int);
    assert(rank_cap(22) == 0x400000int);
    assert(rank_cap(23) == 0x800000int);
    assert(rank_cap(24) == 0x1000000int);
    assert(rank_cap(25) == 0x2000000int);
    assert(rank_cap(26) == 0x4000000int);
    assert(rank_cap(27) == 0x8000000int);
    assert(rank_cap(28) == 0x10000000int);
    assert(rank_cap(29) == 0x20000000int);
    assert(rank_cap(30) == 0x40000000int);
    assert(rank_cap(31) == 0x80000000int);
    assert(rank_cap(32) == 0x100000000int);
    assert(rank_cap(33) == 0x200000000int);
    assert(rank_cap(34) == 0x400000000int);
    assert(rank_cap(35) == 0x800000000int);
    assert(rank_cap(36) == 0x1000000000int);
    assert(rank_cap(37) == 0x2000000000int);
    assert(rank_cap(38) == 0x4000000000int);
    assert(rank_cap(39) == 0x8000000000int);
    assert(rank_cap(40) == 0x10000000000int);
    assert(rank_cap(41) == 0x20000000000int);
    assert(rank_cap(42) == 0x40000000000int);
    assert(rank_cap(43) == 0x80000000000int);
    assert(rank_cap(44) == 0x100000000000int);
    assert(rank_cap(45) == 0x200000000000int);
    assert(rank_cap(46) == 0x400000000000int);
    assert(rank_cap(47) == 0x800000000000int);
    assert(rank_cap(48) == 0x1000000000000int);
    assert(rank_cap(49) == 0x2000000000000int);
    assert(rank_cap(50) == 0x4000000000000int);
    assert(rank_cap(51) == 0x8000000000000int);
    assert(rank_cap(52) == 0x10000000000000int);
    assert(rank_cap(53) == 0x20000000000000int);
    assert(rank_cap(54) == 0x40000000000000int);
    assert(rank_cap(55) == 0x80000000000000int);
    assert(rank_cap(56) == 0x100000000000000int);
    assert(rank_cap(57) == 0x200000000000000int);
    assert(rank_cap(58) == 0x400000000000000int);
    assert(rank_cap(59) == 0x800000000000000int);
    assert(rank_cap(60) == 0x1000000000000000int);
    assert(rank_cap(61) == 0x2000000000000000int);
    assert(rank_cap(62) == 0x4000000000000000int);
    assert(rank_cap(63) == 0x8000000000000000int);
    assert(rank_cap(64) == 0x10000000000000000int);
    assert(rank_cap(65) == 0x20000000000000000int);
    assert(rank_cap(66) == 0x40000000000000000int);
    assert(rank_cap(67) == 0x80000000000000000int);
    assert(rank_cap(68) == 0x100000000000000000int);
    assert(rank_cap(69) == 0x200000000000000000int);
    assert(rank_cap(70) == 0x400000000000000000int);
    assert(rank_cap(71) == 0x800000000000000000int);
    assert(rank_cap(72) == 0x1000000000000000000int);
    assert(rank_cap(73) == 0x2000000000000000000int);
    assert(rank_cap(74) == 0x4000000000000000000int);
    assert(rank_cap(75) == 0x8000000000000000000int);
    assert(rank_cap(76) == 0x10000000000000000000int);
    assert(rank_cap(77) == 0x20000000000000000000int);
    assert(rank_cap(78) == 0x40000000000000000000int);
    assert(rank_cap(79) == 0x80000000000000000000int);
    assert(rank_cap(80) == 0x100000000000000000000int);
    assert(rank_cap(81) == 0x200000000000000000000int);
    assert(rank_cap(82) == 0x400000000000000000000int);
    assert(rank_cap(83) == 0x800000000000000000000int);
    assert(rank_cap(84) == 0x1000000000000000000000int);
    assert(rank_cap(85) == 0x2000000000000000000000int);
    assert(rank_cap(86) == 0x4000000000000000000000int);
    assert(rank_cap(87) == 0x8000000000000000000000int);
    assert(rank_cap(88) == 0x10000000000000000000000int);
    assert(rank_cap(89) == 0x20000000000000000000000int);
    assert(rank_cap(90) == 0x40000000000000000000000int);
    assert(rank_cap(91) == 0x80000000000000000000000int);
    assert(rank_cap(92) == 0x100000000000000000000000int);
    assert(rank_cap(93) == 0x200000000000000000000000int);
    assert(rank_cap(94) == 0x400000000000000000000000int);
    assert(rank_cap(95) == 0x800000000000000000000000int);
    assert(rank_cap(96) == 0x1000000000000000000000000int);
    assert(rank_cap(97) == 0x2000000000000000000000000int);
    assert(rank_cap(98) == 0x4000000000000000000000000int);
    assert(rank_cap(99) == 0x8000000000000000000000000int);
    assert(rank_cap(100) == 0x10000000000000000000000000int);
    assert(rank_cap(101) == 0x20000000000000000000000000int);
    assert(rank_cap(102) == 0x40000000000000000000000000int);
    assert(rank_cap(103) == 0x80000000000000000000000000int);
    assert(rank_cap(104) == 0x100000000000000000000000000int);
    assert(rank_cap(105) == 0x200000000000000000000000000int);
    assert(rank_cap(106) == 0x400000000000000000000000000int);
    assert(rank_cap(107) == 0x800000000000000000000000000int);
    assert(rank_cap(108) == 0x1000000000000000000000000000int);
    assert(rank_cap(109) == 0x2000000000000000000000000000int);
    assert(rank_cap(110) == 0x4000000000000000000000000000int);
    assert(rank_cap(111) == 0x8000000000000000000000000000int);
    assert(rank_cap(112) == 0x10000000000000000000000000000int);
    assert(rank_cap(113) == 0x20000000000000000000000000000int);
    assert(rank_cap(114) == 0x40000000000000000000000000000int);
    assert(rank_cap(115) == 0x80000000000000000000000000000int);
    assert(rank_cap(116) == 0x100000000000000000000000000000int);
    assert(rank_cap(117) == 0x200000000000000000000000000000int);
    assert(rank_cap(118) == 0x400000000000000000000000000000int);
    assert(rank_cap(119) == 0x800000000000000000000000000000int);
    assert(rank_cap(120) == 0x1000000000000000000000000000000int);
    assert(rank_cap(121) == 0x2000000000000000000000000000000int);
}

/// Order correctness and completeness: in a workspace whose
/// publish-relevant dependency graph has no cycle — witnessed by any
/// listing `w` of all the crate names in which every crate follows its
/// dependencies — the solver's contract forces the order to hold every
/// crate: it is a permutation of the workspace names in which every crate
/// follows all of its publish-relevant dependencies. The workspace-size
/// bound keeps every rank far below the rank limit; a workspace so large
/// that a rank could reach the limit is out of scope.
pub proof fn lemma_order_complete(
    details: Seq<CrateDetails>,
    names: Seq<Seq<char>>,
    ranks: Map<Seq<char>, int>,
    w: Seq<Seq<char>>,
)
    requires
        publish_order_spec(details, names, ranks),
        forall|k: int| 0 <= k < details.len() ==> (#[trigger] details[k]).wf(),
        crate_names(details).no_duplicates(),
        details.len() <= 120,
        w.no_duplicates(),
        w.len() == details.len(),
        forall|j: int| 0 <= j < w.len() ==> crate_names(details).contains(#[trigger] w[j]),
        topologically_sorted(details, w),
    ensures
        forall|k: int| 0 <= k < details.len() ==> names.contains((#[trigger] details[k]).name@),
        names.len() == details.len(),
        topologically_sorted(details, names),
{
    lemma_order_complete_upto(details, names, ranks, w, w.len() as int);
    // The witness lists every crate name: it is a distinct sub-listing of
    // the distinct crate names with the same length.
    assert forall|k: int|
        0 <= k < details.len() implies names.contains((#[trigger] details[k]).name@) by {
        let nm = details[k].name@;
        assert(crate_names(details)[k] == nm);
        assert(w.contains(nm)) by {
            if !w.contains(nm) {
                // Then the witness sits inside the other names, one short.
                assert forall|j: int| 0 <= j < w.len() implies crate_names(details).remove(
                    k,
                ).contains(#[trigger] w[j]) by {
                    assert(crate_names(details).contains(w[j]));
                    let k0 = choose|k0: int|
                        0 <= k0 < crate_names(details).len() && crate_names(details)[k0] == w[j];
                    assert(k0 != k);
                    let k1 = if k0 < k {
                        k0
                    } else {
                        k0 - 1
                    };
                    assert(crate_names(details).remove(k)[k1] == w[j]);
                }
                lemma_distinct_subset_len(w, crate_names(details).remove(k));
                assert(false);
            }
        }
        let j = choose|j: int| 0 <= j < w.len() && w[j] == nm;
        assert(names.contains(w[j]));
    }
    // The order holds no duplicates, sits inside the crate names, and
    // holds all of them.
    lemma_distinct_subset_len(names, crate_names(details));
    assert forall|k: int|
        0 <= k < crate_names(details).len() implies names.contains(
        #[trigger] crate_names(details)[k],
    ) by {
        assert(crate_names(details)[k] == details[k].name@);
    }
    lemma_distinct_subset_len(crate_names(details), names);
    lemma_publish_order_topological(details, names, ranks);
}

} // verus!

verus! {

/// A rank sum depends only on the summed names' ranks.
proof fn lemma_sum_ranks_agree(
    deps: Seq<Seq<char>>,
    r1: Map<Seq<char>, int>,
    r2: Map<Seq<char>, int>,
)
    requires
        forall|d: int| 0 <= d < deps.len() ==> r1[#[trigger] deps[d]] == r2[deps[d]],
    ensures
        sum_ranks(deps, r1) == sum_ranks(deps, r2),
    decreases deps.len(),
{
    if deps.len() > 0 {
        assert(forall|d: int|
            0 <= d < deps.drop_first().len() ==> r1[#[trigger] deps.drop_first()[d]]
                == r2[deps.drop_first()[d]]);
        lemma_sum_ranks_agree(deps.drop_first(), r1, r2);
    }
}

/// Every crate of one valid order sits in any other valid order, with the
/// same rank.
proof fn lemma_order_subset_upto(
    details: Seq<CrateDetails>,
    names1: Seq<Seq<char>>,
    ranks1: Map<Seq<char>, int>,
    names2: Seq<Seq<char>>,
    ranks2: Map<Seq<char>, int>,
    i: int,
)
    requires
        publish_order_spec(details, names1, ranks1),
        publish_order_spec(details, names2, ranks2),
        crate_names(details).no_duplicates(),
        0 <= i <= names1.len(),
    ensures
        forall|j: int|
            0 <= j < i ==> names2.contains(#[trigger] names1[j]) && ranks2[names1[j]]
                == ranks1[names1[j]],
    decreases i,
{
    if i > 0 {
        lemma_order_subset_upto(details, names1, ranks1, names2, ranks2, i - 1);
        lemma_publish_order_topological(details, names1, ranks1);
        let nm = names1[i - 1];
        assert(crate_names(details).contains(nm));
        let k = choose|k: int| 0 <= k < crate_names(details).len() && crate_names(details)[k] == nm;
        assert(details[k].name@ == nm);
        assert(names1.contains(nm)) by {
            assert(names1[i - 1] == nm);
        }
        let deps = details[k].spec_deps();
        assert(deps_before(deps, names1, i - 1));
        assert forall|d: int| 0 <= d < deps.len() implies names2.contains(#[trigger] deps[d])
            && ranks2[deps[d]] == ranks1[deps[d]] by {
            let j = choose|j: int| 0 <= j < i - 1 && names1[j] == deps[d];
            assert(names2.contains(names1[j]) && ranks2[names1[j]] == ranks1[names1[j]]);
        }
        lemma_sum_ranks_agree(deps, ranks1, ranks2);
        // The first order records this crate's rank, which is in bounds,
        // so the second order's saturation forces the crate in.
        assert(ranks1[nm] == 1 + sum_ranks(deps, ranks1));
        assert(ranks1[nm] <= u128::MAX as int) by {
            lemma_name_in_dom_order(names1, ranks1, nm);
        }
        assert(saturated_at(details, k, names2, ranks2));
        assert(names2.contains(nm));
        assert(ranks2[nm] == 1 + sum_ranks(deps, ranks2));
    }
}

/// Two lists of distinct names, strictly sorted by rank and name under
/// agreeing rank maps and holding the same names, are the same list.
proof fn lemma_sorted_unique(
    names1: Seq<Seq<char>>,
    ranks1: Map<Seq<char>, int>,
    names2: Seq<Seq<char>>,
    ranks2: Map<Seq<char>, int>,
)
    requires
        names1.no_duplicates(),
        names2.no_duplicates(),
        rank_sorted(names1, ranks1),
        rank_sorted(names2, ranks2),
        forall|nm: Seq<char>| names1.contains(nm) <==> names2.contains(nm),
        forall|nm: Seq<char>| names1.contains(nm) ==> ranks1[nm] == ranks2[nm],
    ensures
        names1 =~= names2,
    decreases names1.len(),
{
    if names1.len() == 0 {
        if names2.len() > 0 {
            assert(names2.contains(names2[0]));
            assert(names1.contains(names2[0]));
        }
        assert(names1 =~= names2);
    } else {
        assert(names1.contains(names1[0]));
        assert(names2.contains(names1[0]));
        let m = choose|m: int| 0 <= m < names2.len() && names2[m] == names1[0];
        if m > 0 {
            assert(names2.contains(names2[0]));
            assert(names1.contains(names2[0]));
            let p = choose|p: int| 0 <= p < names1.len() && names1[p] == names2[0];
            if p > 0 {
                assert(rank_name_lt(
                    ranks1[names1[0]],
                    names1[0],
                    ranks1[names1[p]],
                    names1[p],
                ));
                assert(rank_name_lt(
                    ranks2[names2[0]],
                    names2[0],
                    ranks2[names2[m]],
                    names2[m],
                ));
                assert(ranks2[names2[m]] == ranks1[names1[0]]);
                assert(ranks2[names2[0]] == ranks1[names1[p]]);
                // The two strict orderings point both ways: impossible.
                lemma_lex_lt_trichotomy(names1[0], names1[p]);
                assert(false);
            } else {
                // The other head equals this head, which already sits at
                // position `m`: a duplicate.
                assert(names2[0] == names1[0]);
                assert(names2[m] == names2[0]);
                assert(false);
            }
        }
        assert(names2.len() > 0 && names2[0] == names1[0]);
        let t1 = names1.drop_first();
        let t2 = names2.drop_first();
        assert forall|nm: Seq<char>| t1.contains(nm) implies t2.contains(nm) by {
            let j = choose|j: int| 0 <= j < t1.len() && t1[j] == nm;
            assert(names1[j + 1] == nm);
            assert(names1.contains(nm));
            assert(nm != names1[0]);
            assert(names2.contains(nm));
            let j2 = choose|j2: int| 0 <= j2 < names2.len() && names2[j2] == nm;
            assert(j2 != 0);
            assert(t2[j2 - 1] == nm);
        }
        assert forall|nm: Seq<char>| t2.contains(nm) implies t1.contains(nm) by {
            let j = choose|j: int| 0 <= j < t2.len() && t2[j] == nm;
            assert(names2[j + 1] == nm);
            assert(names2.contains(nm));
            assert(nm != names2[0]);
            assert(names1.contains(nm));
            let j2 = choose|j2: int| 0 <= j2 < names1.len() && names1[j2] == nm;
            assert(j2 != 0);
            assert(t1[j2 - 1] == nm);
        }
        assert forall|nm: Seq<char>| t1.contains(nm) implies ranks1[nm] == ranks2[nm] by {
            let j = choose|j: int| 0 <= j < t1.len() && t1[j] == nm;
            assert(names1[j + 1] == nm);
            assert(names1.contains(nm));
        }
        assert forall|a: int, b: int| 0 <= a < b < t1.len() implies rank_name_lt(
            ranks1[#[trigger] t1[a]],
            t1[a],
            ranks1[#[trigger] t1[b]],
            t1[b],
        ) by {
            assert(t1[a] == names1[a + 1] && t1[b] == names1[b + 1]);
        }
        assert forall|a: int, b: int| 0 <= a < b < t2.len() implies rank_name_lt(
            ranks2[#[trigger] t2[a]],
            t2[a],
            ranks2[#[trigger] t2[b]],
            t2[b],
        ) by {
            assert(t2[a] == names2[a + 1] && t2[b] == names2[b + 1]);
        }
        assert forall|a: int, b: int| 0 <= a < b < t1.len() implies t1[a] != t1[b] by {
            assert(t1[a] == names1[a + 1] && t1[b] == names1[b + 1]);
        }
        assert forall|a: int, b: int| 0 <= a < b < t2.len() implies t2[a] != t2[b] by {
            assert(t2[a] == names2[a + 1] && t2[b] == names2[b + 1]);
        }
        lemma_sorted_unique(t1, ranks1, t2, ranks2);
        assert forall|j: int| 0 <= j < names1.len() implies names1[j] == names2[j] by {
            if j > 0 {
                assert(t1[j - 1] == t2[j - 1]);
            }
        }
        assert(names1.len() == names2.len()) by {
            assert(t1.len() == t2.len());
        }
        assert(names1 =~= names2);
    }
}

/// Order determinism: two orders that both satisfy the solver's contract
/// for the same workspace are the same list, name for name. The rank
/// equations pin every rank, and the rank-and-name sort pins the
/// arrangement.
pub proof fn lemma_order_deterministic(
    details: Seq<CrateDetails>,
    names1: Seq<Seq<char>>,
    ranks1: Map<Seq<char>, int>,
    names2: Seq<Seq<char>>,
    ranks2: Map<Seq<char>, int>,
)
    requires
        publish_order_spec(details, names1, ranks1),
        publish_order_spec(details, names2, ranks2),
        crate_names(details).no_duplicates(),
    ensures
        names1 =~= names2,
{
    lemma_order_subset_upto(details, names1, ranks1, names2, ranks2, names1.len() as int);
    lemma_order_subset_upto(details, names2, ranks2, names1, ranks1, names2.len() as int);
    assert forall|nm: Seq<char>| names1.contains(nm) implies names2.contains(nm) by {
        let j = choose|j: int| 0 <= j < names1.len() && names1[j] == nm;
        assert(names2.contains(names1[j]));
    }
    assert forall|nm: Seq<char>| names2.contains(nm) implies names1.contains(nm) by {
        let j = choose|j: int| 0 <= j < names2.len() && names2[j] == nm;
        assert(names1.contains(names2[j]));
    }
    assert forall|nm: Seq<char>| names1.contains(nm) implies ranks1[nm] == ranks2[nm] by {
        let j = choose|j: int| 0 <= j < names1.len() && names1[j] == nm;
        assert(ranks2[names1[j]] == ranks1[names1[j]]);
    }
    lemma_sorted_unique(names1, ranks1, names2, ranks2);
}

} // verus!
