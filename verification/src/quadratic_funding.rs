//! Quadratic funding: the matching pool is shared among projects in
//! proportion to the square root of each project's average contribution,
//! weighted by its number of distinct donors.
use vstd::prelude::*;
use crate::fixed_point::{fits_i128, sqrt_value, trunc_div, FixedPoint};

verus! {

/// A contribution of `amount` tokens by `donor` (the donor's address, as
/// bytes) to the project `project_id`.
#[derive(Clone, Debug, PartialEq, Eq)]
pub struct Contribution {
    pub donor: Vec<u8>,
    pub project_id: u32,
    pub amount: i128,
}

/// What the computation reads of a contribution: the donor's address bytes,
/// the project, and the amount.
pub struct ContributionView {
    pub donor: Seq<u8>,
    pub project_id: u32,
    pub amount: i128,
}

impl View for Contribution {
    type V = ContributionView;

    open spec fn view(&self) -> ContributionView {
        ContributionView { donor: self.donor@, project_id: self.project_id, amount: self.amount }
    }
}

/// The views of a list of contributions.
pub open spec fn contribution_views(v: Seq<Contribution>) -> Seq<ContributionView> {
    v.map_values(|c: Contribution| c@)
}

// ---------------------------------------------------------------------------
// Aggregation over a sequence of contributions.
// ---------------------------------------------------------------------------

/// The projects that received a contribution, each once, in the order of
/// their first contribution (the order in which they are aggregated).
pub open spec fn project_ids(s: Seq<ContributionView>) -> Seq<u32>
    decreases s.len(),
{
    if s.len() == 0 {
        Seq::empty()
    } else {
        let ids = project_ids(s.drop_last());
        if ids.contains(s.last().project_id) {
            ids
        } else {
            ids.push(s.last().project_id)
        }
    }
}

/// Everything given to `pid`, each amount at precision `p`.
pub open spec fn project_total(s: Seq<ContributionView>, pid: u32, p: int) -> int
    decreases s.len(),
{
    if s.len() == 0 {
        0
    } else {
        project_total(s.drop_last(), pid, p) + if s.last().project_id == pid {
            s.last().amount * p
        } else {
            0
        }
    }
}

/// `donor` gave to `pid` somewhere in `s`.
pub open spec fn has_given(s: Seq<ContributionView>, pid: u32, donor: Seq<u8>) -> bool {
    exists|i: int| 0 <= i < s.len() && #[trigger] s[i].project_id == pid && s[i].donor == donor
}

/// The number of distinct donors of `pid`.
pub open spec fn donor_count(s: Seq<ContributionView>, pid: u32) -> nat
    decreases s.len(),
{
    if s.len() == 0 {
        0
    } else {
        donor_count(s.drop_last(), pid) + if s.last().project_id == pid && !has_given(
            s.drop_last(),
            pid,
            s.last().donor,
        ) {
            1nat
        } else {
            0nat
        }
    }
}

/// Adding the contributions up one by one at precision `p` never leaves the
/// `i128` range: neither a scaled amount nor a project's running total.
pub open spec fn aggregation_fits(s: Seq<ContributionView>, p: int) -> bool
    decreases s.len(),
{
    s.len() == 0 || {
        &&& aggregation_fits(s.drop_last(), p)
        &&& fits_i128(s.last().amount * p)
        &&& fits_i128(project_total(s, s.last().project_id, p))
    }
}

// ---------------------------------------------------------------------------
// Per-project quantities, all fixed-point values at precision `p`.
// ---------------------------------------------------------------------------

/// The number of distinct donors of `pid`, as a decimal.
pub open spec fn donor_weight(s: Seq<ContributionView>, pid: u32, p: int) -> int {
    donor_count(s, pid) * p
}

/// The average contribution per distinct donor.
pub open spec fn average_per_donor(s: Seq<ContributionView>, pid: u32, p: int) -> int {
    trunc_div(project_total(s, pid, p) * p, donor_weight(s, pid, p))
}

/// The square root of the average contribution per distinct donor.
pub open spec fn root_per_donor(s: Seq<ContributionView>, pid: u32, p: int) -> int {
    sqrt_value(average_per_donor(s, pid, p), p)
}

/// The project's quadratic weight: the root of the average contribution
/// times the number of distinct donors.
pub open spec fn quadratic_weight(s: Seq<ContributionView>, pid: u32, p: int) -> int {
    trunc_div(root_per_donor(s, pid, p) * donor_weight(s, pid, p), p)
}

/// Computing the quadratic weight of `pid` stays within `i128` and takes no
/// square root of a negative number.
pub open spec fn weight_fits(s: Seq<ContributionView>, pid: u32, p: int) -> bool {
    let avg = average_per_donor(s, pid, p);
    &&& fits_i128(donor_weight(s, pid, p))
    &&& fits_i128(project_total(s, pid, p) * p)
    &&& avg >= 0
    &&& (avg == 0 || (fits_i128(avg + p) && fits_i128(avg * p)))
    &&& fits_i128(root_per_donor(s, pid, p) * donor_weight(s, pid, p))
}

/// The sum of the quadratic weights of `ids`.
pub open spec fn weight_sum(s: Seq<ContributionView>, ids: Seq<u32>, p: int) -> int
    decreases ids.len(),
{
    if ids.len() == 0 {
        0
    } else {
        weight_sum(s, ids.drop_last(), p) + quadratic_weight(s, ids.last(), p)
    }
}

/// The sum of the quadratic weights of all projects.
pub open spec fn total_weight(s: Seq<ContributionView>, p: int) -> int {
    weight_sum(s, project_ids(s), p)
}

/// The project's share of the pool, a decimal between 0 and 1 at precision
/// `p`: its weight over the total weight (0 when the total is 0).
pub open spec fn pool_share(s: Seq<ContributionView>, pid: u32, p: int) -> int {
    let total = total_weight(s, p);
    if total > 0 {
        trunc_div(quadratic_weight(s, pid, p) * p, total)
    } else {
        0
    }
}

/// The project's share applied to the matching pool, at precision `p`.
pub open spec fn matched_value(s: Seq<ContributionView>, pid: u32, pool: int, p: int) -> int {
    trunc_div(pool_share(s, pid, p) * (pool * p), p)
}

/// The tokens matched to `pid`: the whole part of its matched value.
pub open spec fn matching_amount(s: Seq<ContributionView>, pid: u32, pool: int, p: int) -> int {
    trunc_div(matched_value(s, pid, pool, p), p)
}

/// Computing the share and the matched value of `pid` stays within `i128`.
pub open spec fn payout_fits(s: Seq<ContributionView>, pid: u32, pool: int, p: int) -> bool {
    total_weight(s, p) > 0 ==> {
        &&& fits_i128(quadratic_weight(s, pid, p) * p)
        &&& fits_i128(pool_share(s, pid, p) * (pool * p))
    }
}

/// The whole computation succeeds: a positive precision, and no step leaves
/// the `i128` range or takes the square root of a negative number.
pub open spec fn calculation_succeeds(s: Seq<ContributionView>, pool: int, p: int) -> bool {
    let ids = project_ids(s);
    &&& p > 0
    &&& aggregation_fits(s, p)
    &&& fits_i128(pool * p)
    &&& forall|i: int| 0 <= i < ids.len() ==> weight_fits(s, #[trigger] ids[i], p)
    &&& fits_i128(total_weight(s, p))
    &&& forall|i: int| 0 <= i < ids.len() ==> payout_fits(s, #[trigger] ids[i], pool, p)
}

/// One entry per project, in the order of the projects' first contributions,
/// with the project's matching amount.
pub open spec fn results_by_arrival(s: Seq<ContributionView>, pool: int, p: int) -> Seq<(u32, i128)> {
    let ids = project_ids(s);
    Seq::new(ids.len(), |i: int| (ids[i], matching_amount(s, ids[i], pool, p) as i128))
}

/// `r` holds a project's amount under key `pid`.
pub open spec fn has_key(r: Seq<(u32, i128)>, pid: u32) -> bool {
    exists|i: int| 0 <= i < r.len() && r[i].0 == pid
}

/// The matching results of a round: one entry per project that received a
/// contribution, in ascending project id, each with its matching amount.
pub open spec fn are_matching_results(
    r: Seq<(u32, i128)>,
    s: Seq<ContributionView>,
    pool: int,
    p: int,
) -> bool {
    &&& forall|i: int, j: int| 0 <= i < j < r.len() ==> r[i].0 < r[j].0
    &&& forall|i: int|
        0 <= i < r.len() ==> project_ids(s).contains(#[trigger] r[i].0) && r[i].1
            == matching_amount(s, r[i].0, pool, p) as i128
    &&& forall|pid: u32| #[trigger] project_ids(s).contains(pid) ==> has_key(r, pid)
}

// ---------------------------------------------------------------------------
// Facts about the aggregation.
// ---------------------------------------------------------------------------

proof fn lemma_take_step(s: Seq<ContributionView>, k: int)
    requires
        0 <= k < s.len(),
    ensures
        s.take(k + 1).drop_last() == s.take(k),
        s.take(k + 1).last() == s[k],
        s.take(k + 1).len() == k + 1,
{
    assert(s.take(k + 1).drop_last() =~= s.take(k));
}

proof fn lemma_project_ids(s: Seq<ContributionView>)
    ensures
        project_ids(s).no_duplicates(),
        forall|pid: u32|
            project_ids(s).contains(pid) <==> exists|i: int|
                0 <= i < s.len() && #[trigger] s[i].project_id == pid,
    decreases s.len(),
{
    if s.len() > 0 {
        let t = s.drop_last();
        lemma_project_ids(t);
        let ids_t = project_ids(t);
        let last = s.last().project_id;
        let ids = project_ids(s);
        assert forall|pid: u32| ids.contains(pid) <==> (ids_t.contains(pid) || pid == last) by {
            if ids_t.contains(last) {
                if pid == last {
                    assert(ids.contains(pid));
                }
            } else {
                assert(ids == ids_t.push(last));
                if ids_t.contains(pid) {
                    let j = choose|j: int| 0 <= j < ids_t.len() && ids_t[j] == pid;
                    assert(ids[j] == pid);
                }
                if pid == last {
                    assert(ids[ids_t.len() as int] == pid);
                }
                if ids.contains(pid) {
                    let j = choose|j: int| 0 <= j < ids.len() && ids[j] == pid;
                    if j < ids_t.len() {
                        assert(ids_t[j] == pid);
                    }
                }
            }
        }
        assert forall|pid: u32|
            ids.contains(pid) <==> exists|i: int|
                0 <= i < s.len() && #[trigger] s[i].project_id == pid by {
            if exists|i: int| 0 <= i < s.len() && #[trigger] s[i].project_id == pid {
                let i = choose|i: int| 0 <= i < s.len() && #[trigger] s[i].project_id == pid;
                if i < s.len() - 1 {
                    assert(t[i].project_id == pid);
                }
            }
            if ids_t.contains(pid) {
                let i = choose|i: int| 0 <= i < t.len() && #[trigger] t[i].project_id == pid;
                assert(s[i].project_id == pid);
            }
            if pid == last {
                assert(s[s.len() - 1].project_id == pid);
            }
        }
        if !ids_t.contains(last) {
            assert forall|a: int, b: int| 0 <= a < b < ids.len() implies ids[a] != ids[b] by {
                if b == ids_t.len() {
                    assert(ids_t[a] == ids[a]);
                }
            }
        }
    }
}

/// Each project appears once among the projects of a round.
pub proof fn lemma_project_ids_distinct(s: Seq<ContributionView>)
    ensures
        project_ids(s).no_duplicates(),
{
    lemma_project_ids(s);
}

proof fn lemma_has_given_step(s: Seq<ContributionView>, k: int, pid: u32, donor: Seq<u8>)
    requires
        0 <= k < s.len(),
    ensures
        has_given(s.take(k + 1), pid, donor) <==> (has_given(s.take(k), pid, donor) || (
        s[k].project_id == pid && s[k].donor == donor)),
{
    let a = s.take(k + 1);
    let b = s.take(k);
    if has_given(a, pid, donor) {
        let i = choose|i: int| 0 <= i < a.len() && #[trigger] a[i].project_id == pid && a[i].donor == donor;
        if i < k {
            assert(b[i].project_id == pid);
        }
    }
    if has_given(b, pid, donor) {
        let i = choose|i: int| 0 <= i < b.len() && #[trigger] b[i].project_id == pid && b[i].donor == donor;
        assert(a[i].project_id == pid);
    }
    if s[k].project_id == pid && s[k].donor == donor {
        assert(a[k].project_id == pid);
    }
}

proof fn lemma_donor_count_bound(s: Seq<ContributionView>, pid: u32)
    ensures
        donor_count(s, pid) <= s.len(),
    decreases s.len(),
{
    if s.len() > 0 {
        lemma_donor_count_bound(s.drop_last(), pid);
    }
}

proof fn lemma_donor_count_positive(s: Seq<ContributionView>, pid: u32)
    requires
        project_ids(s).contains(pid),
    ensures
        donor_count(s, pid) >= 1,
    decreases s.len(),
{
    let t = s.drop_last();
    if project_ids(t).contains(pid) {
        lemma_donor_count_positive(t, pid);
    } else {
        assert(s.last().project_id == pid);
        if has_given(t, pid, s.last().donor) {
            let i = choose|i: int| 0 <= i < t.len() && #[trigger] t[i].project_id == pid && t[i].donor == s.last().donor;
            lemma_project_ids(t);
            assert(t[i].project_id == pid);
        }
    }
}

proof fn lemma_absent_project(s: Seq<ContributionView>, pid: u32, p: int)
    requires
        !project_ids(s).contains(pid),
    ensures
        project_total(s, pid, p) == 0,
        donor_count(s, pid) == 0,
    decreases s.len(),
{
    if s.len() > 0 {
        let t = s.drop_last();
        lemma_project_ids(s);
        lemma_project_ids(t);
        if project_ids(t).contains(pid) {
            let i = choose|i: int| 0 <= i < t.len() && #[trigger] t[i].project_id == pid;
            assert(s[i].project_id == pid);
        }
        assert(s[s.len() - 1].project_id != pid);
        lemma_absent_project(t, pid, p);
    }
}

proof fn lemma_aggregation_fits_prefix(s: Seq<ContributionView>, k: int, p: int)
    requires
        0 <= k <= s.len(),
        aggregation_fits(s, p),
    ensures
        aggregation_fits(s.take(k), p),
    decreases s.len() - k,
{
    if k < s.len() {
        lemma_aggregation_fits_prefix(s, k + 1, p);
        lemma_take_step(s, k);
    } else {
        assert(s.take(k) =~= s);
    }
}

// ---------------------------------------------------------------------------
// The engine.
// ---------------------------------------------------------------------------

/// What has been gathered about one project so far.
#[derive(Clone, Copy)]
struct ProjectAggregate {
    project_id: u32,
    total_contributed: FixedPoint,
    unique_donors: u32,
}

/// The aggregates describe the projects of `t`, in order, with their totals
/// at precision `p` and their numbers of distinct donors.
spec fn aggregates_match(aggs: Seq<ProjectAggregate>, t: Seq<ContributionView>, p: int) -> bool {
    let ids = project_ids(t);
    &&& aggs.len() == ids.len()
    &&& forall|j: int|
        0 <= j < aggs.len() ==> {
            &&& (#[trigger] aggs[j]).project_id == ids[j]
            &&& aggs[j].total_contributed.value == project_total(t, ids[j], p)
            &&& aggs[j].total_contributed.precision == p
            &&& aggs[j].unique_donors == donor_count(t, ids[j])
        }
}

/// The recorded (project, donor) pairs are exactly those of `t`.
spec fn donors_match(pairs: Seq<(u32, Vec<u8>)>, t: Seq<ContributionView>) -> bool {
    forall|pid: u32, d: Seq<u8>|
        #[trigger] has_given(t, pid, d) <==> exists|k: int|
            0 <= k < pairs.len() && (#[trigger] pairs[k]).0 == pid && pairs[k].1@ == d
}

/// Two donors are the same address.
fn same_donor(a: &Vec<u8>, b: &Vec<u8>) -> (r: bool)
    ensures
        r == (a@ == b@),
{
    if a.len() != b.len() {
        return false;
    }
    let mut i: usize = 0;
    while i < a.len()
        invariant
            a.len() == b.len(),
            0 <= i <= a.len(),
            forall|k: int| 0 <= k < i ==> a@[k] == b@[k],
        decreases a.len() - i,
    {
        if a[i] != b[i] {
            return false;
        }
        i += 1;
    }
    assert(a@ =~= b@);
    true
}

/// Gathers, per project, the total contributed at precision `p` and the
/// number of distinct donors; `None` when a scaled amount or a running total
/// leaves the `i128` range.
fn aggregate(contributions: &Vec<Contribution>, p: i128) -> (r: Option<Vec<ProjectAggregate>>)
    requires
        p > 0,
        contributions.len() <= u32::MAX,
    ensures
        r is Some <==> aggregation_fits(contribution_views(contributions@), p as int),
        r matches Some(aggs) ==> aggregates_match(aggs@, contribution_views(contributions@), p as int),
{
    let ghost s = contribution_views(contributions@);
    let mut aggregates: Vec<ProjectAggregate> = Vec::new();
    let mut donor_set: Vec<(u32, Vec<u8>)> = Vec::new();
    let mut i: usize = 0;
    while i < contributions.len()
        invariant
            s == contribution_views(contributions@),
            s.len() == contributions@.len(),
            p > 0,
            s.len() <= u32::MAX,
            0 <= i <= s.len(),
            aggregation_fits(s.take(i as int), p as int),
            aggregates_match(aggregates@, s.take(i as int), p as int),
            donors_match(donor_set@, s.take(i as int)),
        decreases s.len() - i,
    {
        let c = &contributions[i];
        assert(s[i as int] == c@);
        let ghost t = s.take(i as int);
        let ghost t2 = s.take(i + 1);
        proof {
            lemma_take_step(s, i as int);
            lemma_project_ids(t);
        }
        let mut j: usize = 0;
        while j < aggregates.len() && aggregates[j].project_id != c.project_id
            invariant
                0 <= j <= aggregates.len(),
                forall|k: int| 0 <= k < j ==> (#[trigger] aggregates@[k]).project_id != c.project_id,
            decreases aggregates.len() - j,
        {
            j += 1;
        }
        let found = j < aggregates.len();
        proof {
            if found {
                assert(project_ids(t)[j as int] == c.project_id);
            } else {
                assert forall|k: int| 0 <= k < project_ids(t).len() implies project_ids(t)[k]
                    != c.project_id by {
                    assert(aggregates@[k].project_id == project_ids(t)[k]);
                }
                lemma_absent_project(t, c.project_id, p as int);
            }
        }
        let scaled = match c.amount.checked_mul(p) {
            Some(v) => v,
            None => {
                proof {
                    if aggregation_fits(s, p as int) {
                        lemma_aggregation_fits_prefix(s, i + 1, p as int);
                    }
                }
                return None;
            },
        };
        let amount_fp = FixedPoint::new(scaled, p);
        let agg = if found {
            aggregates[j]
        } else {
            ProjectAggregate {
                project_id: c.project_id,
                total_contributed: FixedPoint::new(0, p),
                unique_donors: 0,
            }
        };
        proof {
            assert(agg.total_contributed.value == project_total(t, c.project_id, p as int));
            assert(agg.unique_donors == donor_count(t, c.project_id));
            assert(project_total(t2, c.project_id, p as int) == agg.total_contributed.value + scaled);
        }
        if agg.total_contributed.value.checked_add(scaled).is_none() {
            proof {
                if aggregation_fits(s, p as int) {
                    lemma_aggregation_fits_prefix(s, i + 1, p as int);
                }
            }
            return None;
        }
        let updated_total = agg.total_contributed.add(&amount_fp);

        let mut is_new = true;
        let mut d: usize = 0;
        while d < donor_set.len()
            invariant_except_break
                is_new,
            invariant
                0 <= d <= donor_set.len(),
                forall|k: int|
                    0 <= k < d ==> !((#[trigger] donor_set@[k]).0 == c.project_id
                        && donor_set@[k].1@ == c.donor@),
            ensures
                is_new <==> forall|k: int|
                    0 <= k < donor_set.len() ==> !((#[trigger] donor_set@[k]).0 == c.project_id
                        && donor_set@[k].1@ == c.donor@),
            decreases donor_set.len() - d,
        {
            if donor_set[d].0 == c.project_id && same_donor(&donor_set[d].1, &c.donor) {
                is_new = false;
                break;
            }
            d += 1;
        }
        proof {
            if is_new {
                if has_given(t, c.project_id, c.donor@) {
                    let k = choose|k: int|
                        0 <= k < donor_set@.len() && (#[trigger] donor_set@[k]).0 == c.project_id
                            && donor_set@[k].1@ == c.donor@;
                }
            } else {
                assert(has_given(t, c.project_id, c.donor@));
            }
            lemma_donor_count_bound(t2, c.project_id);
        }
        let ghost old_pairs = donor_set@;
        let mut updated_donors = agg.unique_donors;
        if is_new {
            let donor = c.donor.clone();
            proof {
                assert(donor@ =~= c.donor@);
            }
            donor_set.push((c.project_id, donor));
            updated_donors = updated_donors + 1;
        }
        let new_agg = ProjectAggregate {
            project_id: c.project_id,
            total_contributed: updated_total,
            unique_donors: updated_donors,
        };
        let ghost old_aggs = aggregates@;
        if found {
            aggregates.set(j, new_agg);
        } else {
            aggregates.push(new_agg);
        }
        proof {
            let ids = project_ids(t);
            let ids2 = project_ids(t2);
            assert forall|k: int| 0 <= k < aggregates@.len() implies {
                &&& (#[trigger] aggregates@[k]).project_id == ids2[k]
                &&& aggregates@[k].total_contributed.value == project_total(t2, ids2[k], p as int)
                &&& aggregates@[k].total_contributed.precision == p
                &&& aggregates@[k].unique_donors == donor_count(t2, ids2[k])
            } by {
                if k < ids.len() && ids[k] != c.project_id {
                    assert(old_aggs[k].project_id == ids[k]);
                    assert(ids2[k] == ids[k]);
                }
            }
            assert forall|pid: u32, dd: Seq<u8>|
                #[trigger] has_given(t2, pid, dd) <==> exists|k: int|
                    0 <= k < donor_set@.len() && (#[trigger] donor_set@[k]).0 == pid
                        && donor_set@[k].1@ == dd by {
                lemma_has_given_step(s, i as int, pid, dd);
                if has_given(t, pid, dd) {
                    let k = choose|k: int|
                        0 <= k < old_pairs.len() && (#[trigger] old_pairs[k]).0 == pid
                            && old_pairs[k].1@ == dd;
                    assert(donor_set@[k] == old_pairs[k]);
                }
                if c.project_id == pid && c.donor@ == dd && is_new {
                    let k = old_pairs.len() as int;
                    assert(donor_set@[k].0 == pid && donor_set@[k].1@ == dd);
                }
                if exists|k: int|
                    0 <= k < donor_set@.len() && (#[trigger] donor_set@[k]).0 == pid
                        && donor_set@[k].1@ == dd {
                    let k = choose|k: int|
                        0 <= k < donor_set@.len() && (#[trigger] donor_set@[k]).0 == pid
                            && donor_set@[k].1@ == dd;
                    if k < old_pairs.len() {
                        assert(old_pairs[k] == donor_set@[k]);
                        assert(has_given(t, pid, dd));
                    }
                }
            }
        }
        i += 1;
    }
    proof {
        assert(s.take(s.len() as int) =~= s);
    }
    Some(aggregates)
}

proof fn lemma_weight_sum_step(s: Seq<ContributionView>, ids: Seq<u32>, k: int, p: int)
    requires
        0 <= k < ids.len(),
    ensures
        weight_sum(s, ids.take(k + 1), p) == weight_sum(s, ids.take(k), p) + quadratic_weight(
            s,
            ids[k],
            p,
        ),
{
    assert(ids.take(k + 1).drop_last() =~= ids.take(k));
}

/// A project whose weight can be computed has a nonnegative weight.
pub proof fn lemma_quadratic_weight_nonneg(s: Seq<ContributionView>, pid: u32, p: int)
    requires
        p > 0,
        weight_fits(s, pid, p),
    ensures
        quadratic_weight(s, pid, p) >= 0,
        root_per_donor(s, pid, p) >= 0,
{
    let avg = average_per_donor(s, pid, p);
    if avg > 0 {
        crate::fixed_point::lemma_sqrt_brackets_root(avg, p);
    }
    let r = root_per_donor(s, pid, p);
    let w = donor_weight(s, pid, p);
    assert(w >= 0) by (nonlinear_arith)
        requires
            w == donor_count(s, pid) * p,
            p > 0,
    ;
    assert(r * w >= 0) by (nonlinear_arith)
        requires
            r >= 0,
            w >= 0,
    ;
    vstd::arithmetic::div_mod::lemma_div_pos_is_pos(r * w, p);
}

proof fn lemma_weight_sum_prefix(s: Seq<ContributionView>, ids: Seq<u32>, k: int, p: int)
    requires
        p > 0,
        0 <= k <= ids.len(),
        forall|i: int| 0 <= i < ids.len() ==> weight_fits(s, #[trigger] ids[i], p),
    ensures
        0 <= weight_sum(s, ids.take(k), p) <= weight_sum(s, ids, p),
    decreases ids.len() - k,
{
    if k < ids.len() {
        lemma_weight_sum_prefix(s, ids, k + 1, p);
        lemma_weight_sum_step(s, ids, k, p);
        lemma_quadratic_weight_nonneg(s, ids[k], p);
        let t = ids.take(k);
        assert forall|i: int| 0 <= i < t.len() implies weight_fits(s, #[trigger] t[i], p) by {
            assert(t[i] == ids[i]);
        }
        lemma_weight_sum_nonneg(s, t, p);
    } else {
        assert(ids.take(k) =~= ids);
        lemma_weight_sum_nonneg(s, ids, p);
    }
}

proof fn lemma_weight_sum_nonneg(s: Seq<ContributionView>, ids: Seq<u32>, p: int)
    requires
        p > 0,
        forall|i: int| 0 <= i < ids.len() ==> weight_fits(s, #[trigger] ids[i], p),
    ensures
        0 <= weight_sum(s, ids, p),
    decreases ids.len(),
{
    if ids.len() > 0 {
        let t = ids.drop_last();
        assert forall|i: int| 0 <= i < t.len() implies weight_fits(s, #[trigger] t[i], p) by {
            assert(t[i] == ids[i]);
        }
        lemma_weight_sum_nonneg(s, t, p);
        lemma_quadratic_weight_nonneg(s, ids.last(), p);
    }
}

/// `a + b`, or `None` when it leaves the `i128` range.
fn checked_sum(a: &FixedPoint, b: &FixedPoint) -> (r: Option<FixedPoint>)
    requires
        a.precision == b.precision,
    ensures
        r is Some <==> fits_i128(a.value + b.value),
        r matches Some(x) ==> x == a.spec_sum(*b) && x.value == a.value + b.value,
{
    if a.value.checked_add(b.value).is_none() {
        None
    } else {
        Some(a.add(b))
    }
}

/// `a * b`, or `None` when the product does not exist.
fn checked_product(a: &FixedPoint, b: &FixedPoint) -> (r: Option<FixedPoint>)
    ensures
        r is Some <==> a.product_defined(*b),
        r matches Some(x) ==> x == a.spec_product(*b),
{
    match a.value.checked_mul(b.value) {
        None => None,
        Some(product) => {
            if b.precision == 0 || (product == i128::MIN && b.precision == -1) {
                None
            } else {
                Some(a.mul(b))
            }
        },
    }
}

/// `a / b`, or `None` when the quotient does not exist.
fn checked_quotient(a: &FixedPoint, b: &FixedPoint) -> (r: Option<FixedPoint>)
    ensures
        r is Some <==> a.quotient_defined(*b),
        r matches Some(x) ==> x == a.spec_quotient(*b),
{
    if b.value == 0 {
        return None;
    }
    match a.value.checked_mul(b.precision) {
        None => None,
        Some(scaled) => {
            if scaled == i128::MIN && b.value == -1 {
                None
            } else {
                Some(a.div(b))
            }
        },
    }
}

/// The square root of `a`, or `None` for a negative value or when the
/// iteration would leave the `i128` range.
fn checked_root(a: &FixedPoint) -> (r: Option<FixedPoint>)
    requires
        a.wf(),
    ensures
        r is Some <==> (a.value >= 0 && (a.value == 0 || (fits_i128(a.value + a.precision)
            && fits_i128(a.value * a.precision)))),
        r matches Some(x) ==> x.value == sqrt_value(a.value as int, a.precision as int)
            && x.precision == a.precision,
{
    if a.value < 0 {
        return None;
    }
    if a.value > 0 {
        if a.value.checked_add(a.precision).is_none() || a.value.checked_mul(a.precision).is_none() {
            return None;
        }
    }
    Some(a.sqrt())
}

/// The quadratic weight of each project, in order, and their sum; `None` when
/// some weight or the sum cannot be computed.
fn project_weights(aggs: &Vec<ProjectAggregate>, p: i128, Ghost(s): Ghost<Seq<ContributionView>>) -> (r:
    Option<(Vec<FixedPoint>, FixedPoint)>)
    requires
        p > 0,
        aggregates_match(aggs@, s, p as int),
    ensures
        r is Some <==> {
            &&& forall|i: int|
                0 <= i < project_ids(s).len() ==> weight_fits(s, #[trigger] project_ids(s)[i], p as int)
            &&& fits_i128(total_weight(s, p as int))
        },
        r matches Some(res) ==> {
            let (weights, total) = res;
            &&& weights@.len() == project_ids(s).len()
            &&& forall|i: int|
                0 <= i < weights@.len() ==> (#[trigger] weights@[i]).value == quadratic_weight(
                    s,
                    project_ids(s)[i],
                    p as int,
                ) && weights@[i].precision == p
            &&& total.value == total_weight(s, p as int)
            &&& total.precision == p
        },
{
    let ghost ids = project_ids(s);
    let mut total_sqrt_sum = FixedPoint::new(0, p);
    let mut weights: Vec<FixedPoint> = Vec::new();
    let mut k: usize = 0;
    proof {
        assert(ids.take(0) =~= Seq::<u32>::empty());
    }
    while k < aggs.len()
        invariant
            p > 0,
            ids == project_ids(s),
            aggregates_match(aggs@, s, p as int),
            0 <= k <= aggs.len(),
            weights@.len() == k,
            forall|i: int|
                0 <= i < k ==> (#[trigger] weights@[i]).value == quadratic_weight(s, ids[i], p as int)
                    && weights@[i].precision == p,
            forall|i: int| 0 <= i < k ==> weight_fits(s, #[trigger] ids[i], p as int),
            total_sqrt_sum.value == weight_sum(s, ids.take(k as int), p as int),
            total_sqrt_sum.precision == p,
        decreases aggs.len() - k,
    {
        let agg = aggs[k];
        let ghost pid = ids[k as int];
        proof {
            assert(agg == aggs@[k as int]);
            lemma_project_ids(s);
            assert(ids.contains(pid));
            lemma_donor_count_positive(s, pid);
            lemma_weight_sum_step(s, ids, k as int, p as int);
        }
        let weight_value = match (agg.unique_donors as i128).checked_mul(p) {
            Some(v) => v,
            None => {
                return None;
            },
        };
        proof {
            assert(weight_value >= p) by (nonlinear_arith)
                requires
                    weight_value == agg.unique_donors * p,
                    agg.unique_donors >= 1,
                    p > 0,
            ;
        }
        let donor_weight = FixedPoint::new(weight_value, p);
        let sqrt_per_donor = if agg.unique_donors > 0 {
            let per_donor_avg = match checked_quotient(&agg.total_contributed, &donor_weight) {
                Some(v) => v,
                None => {
                    return None;
                },
            };
            match checked_root(&per_donor_avg) {
                Some(v) => v,
                None => {
                    return None;
                },
            }
        } else {
            FixedPoint::new(0, p)
        };
        let project_sqrt = match checked_product(&sqrt_per_donor, &donor_weight) {
            Some(v) => v,
            None => {
                return None;
            },
        };
        proof {
            assert(weight_fits(s, pid, p as int));
            lemma_quadratic_weight_nonneg(s, pid, p as int);
        }
        total_sqrt_sum = match checked_sum(&total_sqrt_sum, &project_sqrt) {
            Some(v) => v,
            None => {
                proof {
                    if forall|i: int| 0 <= i < ids.len() ==> weight_fits(s, #[trigger] ids[i], p as int) {
                        lemma_weight_sum_prefix(s, ids, k + 1, p as int);
                    }
                }
                return None;
            },
        };
        weights.push(project_sqrt);
        k += 1;
    }
    proof {
        assert(ids.take(k as int) =~= ids);
    }
    Some((weights, total_sqrt_sum))
}

/// The matching amount of each project, in order; `None` when a share or a
/// matched value cannot be computed.
fn matched_amounts(
    aggs: &Vec<ProjectAggregate>,
    weights: &Vec<FixedPoint>,
    total_sqrt_sum: &FixedPoint,
    matching_pool_fp: &FixedPoint,
    pool: i128,
    p: i128,
    Ghost(s): Ghost<Seq<ContributionView>>,
) -> (r: Option<Vec<(u32, i128)>>)
    requires
        p > 0,
        aggregates_match(aggs@, s, p as int),
        weights@.len() == project_ids(s).len(),
        forall|i: int|
            0 <= i < weights@.len() ==> (#[trigger] weights@[i]).value == quadratic_weight(
                s,
                project_ids(s)[i],
                p as int,
            ) && weights@[i].precision == p,
        total_sqrt_sum.value == total_weight(s, p as int),
        total_sqrt_sum.precision == p,
        matching_pool_fp.value == pool * p,
        matching_pool_fp.precision == p,
    ensures
        r is Some <==> forall|i: int|
            0 <= i < project_ids(s).len() ==> payout_fits(s, #[trigger] project_ids(s)[i], pool as int, p as int),
        r matches Some(v) ==> v@ == results_by_arrival(s, pool as int, p as int),
{
    let ghost ids = project_ids(s);
    let mut results: Vec<(u32, i128)> = Vec::new();
    let mut k: usize = 0;
    while k < aggs.len()
        invariant
            p > 0,
            ids == project_ids(s),
            aggregates_match(aggs@, s, p as int),
            weights@.len() == ids.len(),
            forall|i: int|
                0 <= i < weights@.len() ==> (#[trigger] weights@[i]).value == quadratic_weight(
                    s,
                    ids[i],
                    p as int,
                ) && weights@[i].precision == p,
            total_sqrt_sum.value == total_weight(s, p as int),
            total_sqrt_sum.precision == p,
            matching_pool_fp.value == pool * p,
            matching_pool_fp.precision == p,
            0 <= k <= aggs.len(),
            results@.len() == k,
            forall|i: int|
                0 <= i < k ==> #[trigger] results@[i] == (ids[i], matching_amount(s, ids[i], pool as int, p as int) as i128),
            forall|i: int| 0 <= i < k ==> payout_fits(s, #[trigger] ids[i], pool as int, p as int),
        decreases aggs.len() - k,
    {
        let project_sqrt = weights[k];
        let ghost pid = ids[k as int];
        let share = if total_sqrt_sum.value > 0 {
            match checked_quotient(&project_sqrt, total_sqrt_sum) {
                Some(v) => v,
                None => {
                    return None;
                },
            }
        } else {
            FixedPoint::new(0, p)
        };
        proof {
            assert(share.value == pool_share(s, pid, p as int));
        }
        let match_amount = match checked_product(&share, matching_pool_fp) {
            Some(v) => v,
            None => {
                return None;
            },
        };
        proof {
            assert(payout_fits(s, pid, pool as int, p as int));
            assert(match_amount.value == matched_value(s, pid, pool as int, p as int));
            assert(aggs@[k as int].project_id == pid);
        }
        let amount = match_amount.value / p;
        proof {
            assert(amount == matching_amount(s, pid, pool as int, p as int));
        }
        results.push((aggs[k].project_id, amount));
        k += 1;
    }
    proof {
        assert(results@ =~= results_by_arrival(s, pool as int, p as int));
    }
    Some(results)
}

pub proof fn lemma_arrival_keys_distinct(s: Seq<ContributionView>, pool: int, p: int)
    ensures
        forall|i: int, j: int|
            0 <= i < j < results_by_arrival(s, pool, p).len() ==> results_by_arrival(s, pool, p)[i].0
                != results_by_arrival(s, pool, p)[j].0,
{
    lemma_project_ids(s);
}

/// The entries, ordered by ascending project id.
fn sort_by_project(entries: Vec<(u32, i128)>) -> (r: Vec<(u32, i128)>)
    requires
        forall|i: int, j: int| 0 <= i < j < entries@.len() ==> entries@[i].0 != entries@[j].0,
    ensures
        forall|i: int, j: int| 0 <= i < j < r@.len() ==> r@[i].0 < r@[j].0,
        forall|i: int| 0 <= i < r@.len() ==> entries@.contains(#[trigger] r@[i]),
        forall|j: int| 0 <= j < entries@.len() ==> r@.contains(#[trigger] entries@[j]),
{
    let mut sorted: Vec<(u32, i128)> = Vec::new();
    let mut k: usize = 0;
    while k < entries.len()
        invariant
            0 <= k <= entries@.len(),
            forall|i: int, j: int| 0 <= i < j < entries@.len() ==> entries@[i].0 != entries@[j].0,
            forall|i: int, j: int| 0 <= i < j < sorted@.len() ==> sorted@[i].0 < sorted@[j].0,
            forall|i: int|
                0 <= i < sorted@.len() ==> exists|j: int| 0 <= j < k && entries@[j] == #[trigger] sorted@[i],
            forall|j: int| 0 <= j < k ==> sorted@.contains(#[trigger] entries@[j]),
        decreases entries@.len() - k,
    {
        let e = entries[k];
        let mut pos: usize = 0;
        while pos < sorted.len() && sorted[pos].0 < e.0
            invariant
                0 <= pos <= sorted@.len(),
                forall|i: int| 0 <= i < pos ==> (#[trigger] sorted@[i]).0 < e.0,
            decreases sorted@.len() - pos,
        {
            pos += 1;
        }
        let ghost before = sorted@;
        proof {
            assert forall|i: int| 0 <= i < before.len() implies (#[trigger] before[i]).0 != e.0 by {
                let j = choose|j: int| 0 <= j < k && entries@[j] == before[i];
                assert(entries@[j].0 != entries@[k as int].0);
            }
            before.insert_ensures(pos as int, e);
        }
        sorted.insert(pos, e);
        proof {
            let after = sorted@;
            assert forall|i: int, j: int| 0 <= i < j < after.len() implies after[i].0 < after[j].0 by {
                if j < pos {
                    assert(after[i] == before[i] && after[j] == before[j]);
                } else if j == pos {
                    assert(after[i] == before[i]);
                } else if i < pos {
                    assert(after[i] == before[i] && after[j] == before[j - 1]);
                    assert(before[pos as int].0 > e.0);
                } else if i == pos {
                    assert(after[j] == before[j - 1]);
                    assert(before[pos as int].0 > e.0);
                    if j - 1 > pos {
                        assert(before[pos as int].0 < before[j - 1].0);
                    }
                } else {
                    assert(after[i] == before[i - 1] && after[j] == before[j - 1]);
                }
            }
            assert forall|i: int|
                0 <= i < after.len() implies exists|j: int| 0 <= j < k + 1 && entries@[j] == #[trigger] after[i] by {
                if i < pos {
                    assert(after[i] == before[i]);
                } else if i == pos {
                    assert(entries@[k as int] == after[i]);
                } else {
                    assert(after[i] == before[i - 1]);
                }
            }
            assert forall|j: int| 0 <= j < k + 1 implies after.contains(#[trigger] entries@[j]) by {
                if j == k {
                    assert(after[pos as int] == entries@[j]);
                } else {
                    assert(before.contains(entries@[j]));
                    let i = choose|i: int| 0 <= i < before.len() && before[i] == entries@[j];
                    if i < pos {
                        assert(after[i] == before[i]);
                    } else {
                        assert(after[i + 1] == before[i]);
                    }
                }
            }
        }
        k += 1;
    }
    proof {
        assert forall|i: int| 0 <= i < sorted@.len() implies entries@.contains(#[trigger] sorted@[i]) by {
            let j = choose|j: int| 0 <= j < k && entries@[j] == sorted@[i];
        }
    }
    sorted
}

/// Results of a quadratic funding round: the matching amount of each project,
/// one entry per project.
pub struct MatchingResults {
    entries: Vec<(u32, i128)>,
}

/// The amount recorded for `pid`: the first entry with that key.
pub open spec fn lookup(entries: Seq<(u32, i128)>, pid: u32) -> Option<i128>
    decreases entries.len(),
{
    if entries.len() == 0 {
        None
    } else if entries[0].0 == pid {
        Some(entries[0].1)
    } else {
        lookup(entries.drop_first(), pid)
    }
}

impl View for MatchingResults {
    type V = Seq<(u32, i128)>;

    closed spec fn view(&self) -> Seq<(u32, i128)> {
        self.entries@
    }
}

impl MatchingResults {
    /// The number of projects.
    pub fn len(&self) -> (r: usize)
        ensures
            r == self@.len(),
    {
        self.entries.len()
    }

    /// The matching amount of `project_id`, if it is among the results.
    pub fn get(&self, project_id: u32) -> (r: Option<i128>)
        ensures
            r == lookup(self@, project_id),
    {
        let mut i: usize = 0;
        proof {
            assert(self.entries@.skip(0) =~= self.entries@);
        }
        while i < self.entries.len()
            invariant
                0 <= i <= self.entries.len(),
                lookup(self.entries@, project_id) == lookup(self.entries@.skip(i as int), project_id),
            decreases self.entries.len() - i,
        {
            let ghost rest = self.entries@.skip(i as int);
            proof {
                assert(rest.drop_first() =~= self.entries@.skip(i + 1));
            }
            if self.entries[i].0 == project_id {
                return Some(self.entries[i].1);
            }
            i += 1;
        }
        None
    }

    /// The `i`-th entry: a project and its matching amount.
    pub fn entry(&self, i: usize) -> (r: (u32, i128))
        requires
            i < self@.len(),
        ensures
            r == self@[i as int],
    {
        self.entries[i]
    }
}

/// Computes quadratic funding matches at a fixed precision.
pub struct QuadraticFundingEngine {
    precision: i128,
}

impl QuadraticFundingEngine {
    /// The precision at which the engine computes.
    pub closed spec fn precision_of(self) -> i128 {
        self.precision
    }

    /// An engine computing at `precision`.
    pub fn new(precision: i128) -> (r: Self)
        ensures
            r.precision_of() == precision,
    {
        QuadraticFundingEngine { precision }
    }

    /// Shares `matching_pool` among the projects that received
    /// contributions: each project's weight is the square root of its
    /// average contribution per distinct donor, times its number of distinct
    /// donors; each project gets the whole part of its weight's share of the
    /// pool. `None` when the precision is not positive, or when a step leaves
    /// the `i128` range or meets a negative average.
    pub fn calculate(&self, contributions: Vec<Contribution>, matching_pool: i128) -> (r: Option<
        MatchingResults,
    >)
        requires
            contributions.len() <= u32::MAX,
        ensures
            r is Some <==> calculation_succeeds(
                contribution_views(contributions@),
                matching_pool as int,
                self.precision_of() as int,
            ),
            r matches Some(results) ==> are_matching_results(
                results@,
                contribution_views(contributions@),
                matching_pool as int,
                self.precision_of() as int,
            ),
    {
        let p = self.precision;
        if p <= 0 {
            return None;
        }
        let ghost s = contribution_views(contributions@);
        let aggregates = match aggregate(&contributions, p) {
            Some(a) => a,
            None => {
                return None;
            },
        };
        let pool_value = match matching_pool.checked_mul(p) {
            Some(v) => v,
            None => {
                return None;
            },
        };
        let matching_pool_fp = FixedPoint::new(pool_value, p);
        let (weights, total_sqrt_sum) = match project_weights(&aggregates, p, Ghost(s)) {
            Some(w) => w,
            None => {
                return None;
            },
        };
        let entries = match matched_amounts(
            &aggregates,
            &weights,
            &total_sqrt_sum,
            &matching_pool_fp,
            matching_pool,
            p,
            Ghost(s),
        ) {
            Some(e) => e,
            None => {
                return None;
            },
        };
        proof {
            lemma_arrival_keys_distinct(s, matching_pool as int, p as int);
        }
        let sorted = sort_by_project(entries);
        proof {
            let e = results_by_arrival(s, matching_pool as int, p as int);
            let ids = project_ids(s);
            assert forall|i: int| 0 <= i < sorted@.len() implies ids.contains(
                #[trigger] sorted@[i].0,
            ) && sorted@[i].1 == matching_amount(s, sorted@[i].0, matching_pool as int, p as int)
                as i128 by {
                let j = choose|j: int| 0 <= j < e.len() && e[j] == sorted@[i];
                assert(ids[j] == sorted@[i].0);
            }
            assert forall|pid: u32| #[trigger] ids.contains(pid) implies has_key(sorted@, pid) by {
                let j = choose|j: int| 0 <= j < ids.len() && ids[j] == pid;
                assert(e[j].0 == pid);
                assert(sorted@.contains(e[j]));
                let i = choose|i: int| 0 <= i < sorted@.len() && sorted@[i] == e[j];
                assert(sorted@[i].0 == pid);
            }
        }
        Some(MatchingResults { entries: sorted })
    }
}

// ---------------------------------------------------------------------------
// Laws of the distribution.
// ---------------------------------------------------------------------------

/// The sum of the amounts in a list of results.
pub open spec fn results_total(entries: Seq<(u32, i128)>) -> int
    decreases entries.len(),
{
    if entries.len() == 0 {
        0
    } else {
        results_total(entries.drop_last()) + entries.last().1
    }
}

spec fn amount_total(s: Seq<ContributionView>, ids: Seq<u32>, pool: int, p: int) -> int
    decreases ids.len(),
{
    if ids.len() == 0 {
        0
    } else {
        amount_total(s, ids.drop_last(), pool, p) + matching_amount(s, ids.last(), pool, p)
    }
}

spec fn share_total(s: Seq<ContributionView>, ids: Seq<u32>, p: int) -> int
    decreases ids.len(),
{
    if ids.len() == 0 {
        0
    } else {
        share_total(s, ids.drop_last(), p) + pool_share(s, ids.last(), p)
    }
}

/// Per project, with a positive total weight and a nonnegative pool: the
/// share is at most the weight's fraction of the total, the matched value is
/// the share times the pool, and the amount is its whole part.
proof fn lemma_payout_bounds(s: Seq<ContributionView>, pid: u32, pool: int, p: int)
    requires
        p > 0,
        pool >= 0,
        total_weight(s, p) > 0,
        weight_fits(s, pid, p),
    ensures
        pool_share(s, pid, p) >= 0,
        pool_share(s, pid, p) * total_weight(s, p) <= quadratic_weight(s, pid, p) * p,
        matched_value(s, pid, pool, p) == pool_share(s, pid, p) * pool,
        matching_amount(s, pid, pool, p) >= 0,
        matching_amount(s, pid, pool, p) * p <= pool_share(s, pid, p) * pool,
        matching_amount(s, pid, pool, p) <= pool_share(s, pid, p) * pool,
{
    let w = quadratic_weight(s, pid, p);
    let t = total_weight(s, p);
    lemma_quadratic_weight_nonneg(s, pid, p);
    assert(w * p >= 0) by (nonlinear_arith)
        requires
            w >= 0,
            p > 0,
    ;
    let share = pool_share(s, pid, p);
    assert(share == (w * p) / t);
    vstd::arithmetic::div_mod::lemma_fundamental_div_mod(w * p, t);
    vstd::arithmetic::div_mod::lemma_mod_pos_bound(w * p, t);
    vstd::arithmetic::div_mod::lemma_div_pos_is_pos(w * p, t);
    assert(share * t <= w * p) by (nonlinear_arith)
        requires
            w * p == t * share + (w * p) % t,
            (w * p) % t >= 0,
    ;
    assert(share * (pool * p) == (share * pool) * p) by (nonlinear_arith);
    crate::fixed_point::lemma_trunc_div_exact(share * pool, p);
    let m = share * pool;
    assert(m >= 0) by (nonlinear_arith)
        requires
            m == share * pool,
            share >= 0,
            pool >= 0,
    ;
    vstd::arithmetic::div_mod::lemma_fundamental_div_mod(m, p);
    vstd::arithmetic::div_mod::lemma_mod_pos_bound(m, p);
    vstd::arithmetic::div_mod::lemma_div_pos_is_pos(m, p);
    vstd::arithmetic::div_mod::lemma_div_is_ordered_by_denominator(m, 1, p);
    assert((m / p) * p <= m) by (nonlinear_arith)
        requires
            m == p * (m / p) + m % p,
            m % p >= 0,
    ;
}

proof fn lemma_totals(s: Seq<ContributionView>, ids: Seq<u32>, pool: int, p: int)
    requires
        p > 0,
        pool >= 0,
        total_weight(s, p) > 0,
        forall|i: int| 0 <= i < ids.len() ==> weight_fits(s, #[trigger] ids[i], p),
    ensures
        amount_total(s, ids, pool, p) >= 0,
        amount_total(s, ids, pool, p) * p <= share_total(s, ids, p) * pool,
        share_total(s, ids, p) * total_weight(s, p) <= p * weight_sum(s, ids, p),
    decreases ids.len(),
{
    if ids.len() > 0 {
        let u = ids.drop_last();
        assert forall|i: int| 0 <= i < u.len() implies weight_fits(s, #[trigger] u[i], p) by {
            assert(u[i] == ids[i]);
        }
        lemma_totals(s, u, pool, p);
        lemma_payout_bounds(s, ids.last(), pool, p);
        let a0 = amount_total(s, u, pool, p);
        let s0 = share_total(s, u, p);
        let w0 = weight_sum(s, u, p);
        let a1 = matching_amount(s, ids.last(), pool, p);
        let s1 = pool_share(s, ids.last(), p);
        let w1 = quadratic_weight(s, ids.last(), p);
        let t = total_weight(s, p);
        assert((a0 + a1) * p <= (s0 + s1) * pool) by (nonlinear_arith)
            requires
                a0 * p <= s0 * pool,
                a1 * p <= s1 * pool,
        ;
        assert((s0 + s1) * t <= p * (w0 + w1)) by (nonlinear_arith)
            requires
                s0 * t <= p * w0,
                s1 * t <= w1 * p,
        ;
    }
}

/// The project ids of a list of results, in its order.
pub open spec fn result_keys(r: Seq<(u32, i128)>) -> Seq<u32> {
    Seq::new(r.len(), |i: int| r[i].0)
}

proof fn lemma_results_total_is_amount_total(s: Seq<ContributionView>, r: Seq<(u32, i128)>, pool: int, p: int)
    requires
        forall|i: int|
            0 <= i < r.len() ==> fits_i128(matching_amount(s, (#[trigger] r[i]).0, pool, p)) && r[i].1
                == matching_amount(s, r[i].0, pool, p) as i128,
    ensures
        results_total(r) == amount_total(s, result_keys(r), pool, p),
    decreases r.len(),
{
    if r.len() > 0 {
        let u = r.drop_last();
        assert(result_keys(u) =~= result_keys(r).drop_last());
        assert forall|i: int|
            0 <= i < u.len() implies fits_i128(matching_amount(s, (#[trigger] u[i]).0, pool, p)) && u[i].1
                == matching_amount(s, u[i].0, pool, p) as i128 by {
            assert(u[i] == r[i]);
        }
        lemma_results_total_is_amount_total(s, u, pool, p);
        assert(r[r.len() - 1] == r.last());
    }
}

proof fn lemma_weight_sum_concat(s: Seq<ContributionView>, a: Seq<u32>, b: Seq<u32>, p: int)
    ensures
        weight_sum(s, a + b, p) == weight_sum(s, a, p) + weight_sum(s, b, p),
    decreases b.len(),
{
    if b.len() == 0 {
        assert(a + b =~= a);
    } else {
        assert((a + b).drop_last() =~= a + b.drop_last());
        lemma_weight_sum_concat(s, a, b.drop_last(), p);
    }
}

/// The sum of the weights of distinct projects depends only on which
/// projects they are.
proof fn lemma_weight_sum_same_set(s: Seq<ContributionView>, a: Seq<u32>, b: Seq<u32>, p: int)
    requires
        a.no_duplicates(),
        b.no_duplicates(),
        forall|x: u32| a.contains(x) == b.contains(x),
    ensures
        weight_sum(s, a, p) == weight_sum(s, b, p),
    decreases a.len(),
{
    if a.len() == 0 {
        if b.len() > 0 {
            assert(b.contains(b[0]));
        }
        assert(b =~= Seq::<u32>::empty());
    } else {
        let x = a.last();
        assert(a.contains(x));
        let k = choose|k: int| 0 <= k < b.len() && b[k] == x;
        let b0 = b.take(k);
        let b1 = b.skip(k + 1);
        assert(b =~= b0 + seq![x] + b1);
        assert(b.remove(k) =~= b0 + b1);
        lemma_weight_sum_concat(s, b0 + seq![x], b1, p);
        lemma_weight_sum_concat(s, b0, seq![x], p);
        lemma_weight_sum_concat(s, b0, b1, p);
        assert(seq![x].drop_last() =~= Seq::<u32>::empty());
        assert(weight_sum(s, Seq::<u32>::empty(), p) == 0);
        assert(weight_sum(s, seq![x], p) == quadratic_weight(s, x, p));
        assert(weight_sum(s, a, p) == weight_sum(s, a.drop_last(), p) + quadratic_weight(s, x, p));
        let a1 = a.drop_last();
        let b2 = b.remove(k);
        b.remove_ensures(k);
        assert forall|y: u32| a1.contains(y) == b2.contains(y) by {
            if a1.contains(y) {
                let i = choose|i: int| 0 <= i < a1.len() && a1[i] == y;
                assert(a[i] == y && i != a.len() - 1);
                assert(b.contains(y));
                let j = choose|j: int| 0 <= j < b.len() && b[j] == y;
                assert(j != k);
                if j < k {
                    assert(b2[j] == y);
                } else {
                    assert(b2[j - 1] == y);
                }
            }
            if b2.contains(y) {
                let j = choose|j: int| 0 <= j < b2.len() && b2[j] == y;
                if j < k {
                    assert(b[j] == y && j != k);
                } else {
                    assert(b[j + 1] == y && j + 1 != k);
                }
                assert(y != x);
                assert(a.contains(y));
                let i = choose|i: int| 0 <= i < a.len() && a[i] == y;
                assert(a1[i] == y);
            }
        }
        assert forall|i: int, j: int| 0 <= i < b2.len() && 0 <= j < b2.len() && i != j implies b2[i] != b2[j] by {
            let bi = if i < k { i } else { i + 1 };
            let bj = if j < k { j } else { j + 1 };
            assert(b2[i] == b[bi] && b2[j] == b[bj]);
        }
        lemma_weight_sum_same_set(s, a1, b2, p);
    }
}

/// With a nonnegative pool, every amount in the results is nonnegative and
/// the amounts never add up to more than the matching pool.
pub proof fn lemma_pool_never_overdrawn(s: Seq<ContributionView>, pool: int, p: int, r: Seq<(u32, i128)>)
    requires
        calculation_succeeds(s, pool, p),
        pool >= 0,
        are_matching_results(r, s, pool, p),
    ensures
        results_total(r) <= pool,
        forall|i: int| 0 <= i < r.len() ==> (#[trigger] r[i]).1 >= 0,
{
    let ids = project_ids(s);
    let keys = result_keys(r);
    let t = total_weight(s, p);
    lemma_project_ids(s);
    lemma_weight_sum_nonneg(s, ids, p);
    assert forall|i: int| 0 <= i < keys.len() implies weight_fits(s, #[trigger] keys[i], p)
        && payout_fits(s, keys[i], pool, p) by {
        assert(keys[i] == r[i].0);
        assert(ids.contains(r[i].0));
        let j = choose|j: int| 0 <= j < ids.len() && ids[j] == r[i].0;
        assert(weight_fits(s, ids[j], p));
        assert(payout_fits(s, ids[j], pool, p));
    }
    assert forall|i: int| 0 <= i < r.len() implies fits_i128(matching_amount(s, (#[trigger] r[i]).0, pool, p))
        && matching_amount(s, r[i].0, pool, p) >= 0 && r[i].1 == matching_amount(s, r[i].0, pool, p)
        as i128 by {
        assert(keys[i] == r[i].0);
        if t > 0 {
            lemma_payout_bounds(s, r[i].0, pool, p);
            let m = pool_share(s, r[i].0, p) * pool;
            assert(m <= pool_share(s, r[i].0, p) * (pool * p)) by (nonlinear_arith)
                requires
                    m == pool_share(s, r[i].0, p) * pool,
                    pool_share(s, r[i].0, p) >= 0,
                    pool >= 0,
                    p >= 1,
            ;
        } else {
            assert(pool_share(s, r[i].0, p) == 0);
            assert(0 * (pool * p) == 0) by (nonlinear_arith);
        }
    }
    lemma_results_total_is_amount_total(s, r, pool, p);
    if t > 0 {
        assert forall|i: int, j: int| 0 <= i < keys.len() && 0 <= j < keys.len() && i != j implies keys[i]
            != keys[j] by {
            if i < j {
                assert(r[i].0 < r[j].0);
            } else {
                assert(r[j].0 < r[i].0);
            }
        }
        assert forall|x: u32| keys.contains(x) == ids.contains(x) by {
            if keys.contains(x) {
                let i = choose|i: int| 0 <= i < keys.len() && keys[i] == x;
                assert(r[i].0 == x);
            }
            if ids.contains(x) {
                assert(has_key(r, x));
                let i = choose|i: int| 0 <= i < r.len() && r[i].0 == x;
                assert(keys[i] == x);
            }
        }
        lemma_weight_sum_same_set(s, keys, ids, p);
        lemma_totals(s, keys, pool, p);
        let a = amount_total(s, keys, pool, p);
        let st = share_total(s, keys, p);
        assert(a <= pool) by (nonlinear_arith)
            requires
                a * p <= st * pool,
                st * t <= p * t,
                t > 0,
                p > 0,
                pool >= 0,
        {
            assert(st <= p);
            assert(st * pool <= p * pool);
        }
    } else {
        lemma_zero_amounts(s, keys, pool, p);
    }
}

proof fn lemma_zero_amounts(s: Seq<ContributionView>, ids: Seq<u32>, pool: int, p: int)
    requires
        forall|i: int| 0 <= i < ids.len() ==> matching_amount(s, #[trigger] ids[i], pool, p) == 0,
    ensures
        amount_total(s, ids, pool, p) == 0,
    decreases ids.len(),
{
    if ids.len() > 0 {
        let u = ids.drop_last();
        assert forall|i: int| 0 <= i < u.len() implies matching_amount(s, #[trigger] u[i], pool, p)
            == 0 by {
            assert(u[i] == ids[i]);
        }
        lemma_zero_amounts(s, u, pool, p);
    }
}

/// A project that is the only one with contributions, and has a positive
/// weight, is matched the whole pool.
pub proof fn lemma_single_project_takes_pool(s: Seq<ContributionView>, pool: int, p: int, r: Seq<(u32, i128)>)
    requires
        calculation_succeeds(s, pool, p),
        project_ids(s).len() == 1,
        quadratic_weight(s, project_ids(s)[0], p) > 0,
        are_matching_results(r, s, pool, p),
    ensures
        r == seq![(project_ids(s)[0], pool as i128)],
{
    let ids = project_ids(s);
    let pid = ids[0];
    let w = quadratic_weight(s, pid, p);
    assert(ids.drop_last() =~= Seq::<u32>::empty());
    assert(weight_sum(s, ids.drop_last(), p) == 0);
    assert(ids.last() == pid);
    assert(total_weight(s, p) == w);
    crate::fixed_point::lemma_trunc_div_exact(p, w);
    assert(p * w == w * p) by (nonlinear_arith);
    assert(pool_share(s, pid, p) == p);
    assert(p * (pool * p) == (p * pool) * p) by (nonlinear_arith);
    crate::fixed_point::lemma_trunc_div_exact(p * pool, p);
    assert(p * pool == pool * p) by (nonlinear_arith);
    crate::fixed_point::lemma_trunc_div_exact(pool, p);
    assert(matching_amount(s, pid, pool, p) == pool);
    assert(ids.contains(pid));
    assert(has_key(r, pid));
    assert forall|i: int| 0 <= i < r.len() implies (#[trigger] r[i]).0 == pid by {
        assert(ids.contains(r[i].0));
        let j = choose|j: int| 0 <= j < ids.len() && ids[j] == r[i].0;
    }
    if r.len() >= 2 {
        assert(r[0].0 < r[1].0);
    }
    assert(r =~= seq![(pid, pool as i128)]);
}

/// smaller quadratic weight.
pub proof fn lemma_matching_is_monotone(s: Seq<ContributionView>, pool: int, p: int, a: u32, b: u32)
    requires
        calculation_succeeds(s, pool, p),
        pool >= 0,
        project_ids(s).contains(a),
        project_ids(s).contains(b),
        quadratic_weight(s, a, p) <= quadratic_weight(s, b, p),
    ensures
        matching_amount(s, a, pool, p) <= matching_amount(s, b, pool, p),
{
    let ids = project_ids(s);
    let ia = choose|i: int| 0 <= i < ids.len() && ids[i] == a;
    let ib = choose|i: int| 0 <= i < ids.len() && ids[i] == b;
    assert(weight_fits(s, ids[ia], p));
    assert(weight_fits(s, ids[ib], p));
    let t = total_weight(s, p);
    if t > 0 {
        lemma_payout_bounds(s, a, pool, p);
        lemma_payout_bounds(s, b, pool, p);
        let wa = quadratic_weight(s, a, p);
        let wb = quadratic_weight(s, b, p);
        lemma_quadratic_weight_nonneg(s, a, p);
        assert(wa * p <= wb * p) by (nonlinear_arith)
            requires
                wa <= wb,
                p > 0,
        ;
        assert(wa * p >= 0) by (nonlinear_arith)
            requires
                wa >= 0,
                p > 0,
        ;
        vstd::arithmetic::div_mod::lemma_div_is_ordered(wa * p, wb * p, t);
        let sa = pool_share(s, a, p);
        let sb = pool_share(s, b, p);
        assert(sa * pool <= sb * pool) by (nonlinear_arith)
            requires
                sa <= sb,
                pool >= 0,
        ;
        assert(sa * pool >= 0) by (nonlinear_arith)
            requires
                sa >= 0,
                pool >= 0,
        ;
        vstd::arithmetic::div_mod::lemma_div_is_ordered(sa * pool, sb * pool, p);
    } else {
        assert(0 * (pool * p) == 0) by (nonlinear_arith);
    }
}

/// A contribution from a donor who already gave to the same project does not
/// change that project's number of distinct donors; one from a new donor
/// adds one.
pub proof fn lemma_donors_counted_once(s: Seq<ContributionView>, c: ContributionView)
    ensures
        has_given(s, c.project_id, c.donor) ==> donor_count(s.push(c), c.project_id) == donor_count(
            s,
            c.project_id,
        ),
        !has_given(s, c.project_id, c.donor) ==> donor_count(s.push(c), c.project_id)
            == donor_count(s, c.project_id) + 1,
{
    assert(s.push(c).drop_last() =~= s);
}

proof fn lemma_lookup_found(e: Seq<(u32, i128)>, pid: u32, j: int)
    requires
        0 <= j < e.len(),
        e[j].0 == pid,
        forall|i: int| 0 <= i < j ==> e[i].0 != pid,
    ensures
        lookup(e, pid) == Some(e[j].1),
    decreases j,
{
    if j > 0 {
        lemma_lookup_found(e.drop_first(), pid, j - 1);
    }
}

proof fn lemma_lookup_absent(e: Seq<(u32, i128)>, pid: u32)
    requires
        forall|i: int| 0 <= i < e.len() ==> e[i].0 != pid,
    ensures
        lookup(e, pid) == None::<i128>,
    decreases e.len(),
{
    if e.len() > 0 {
        lemma_lookup_absent(e.drop_first(), pid);
    }
}

/// The results hold an amount for exactly the projects that received a
/// contribution, and that amount is the project's matching amount.
pub proof fn lemma_results_lookup(s: Seq<ContributionView>, pool: int, p: int, r: Seq<(u32, i128)>, pid: u32)
    requires
        are_matching_results(r, s, pool, p),
    ensures
        lookup(r, pid) == if exists|i: int| 0 <= i < s.len() && #[trigger] s[i].project_id == pid {
            Some(matching_amount(s, pid, pool, p) as i128)
        } else {
            None
        },
{
    let ids = project_ids(s);
    lemma_project_ids(s);
    if ids.contains(pid) {
        assert(has_key(r, pid));
        let j = choose|j: int| 0 <= j < r.len() && r[j].0 == pid;
        assert forall|i: int| 0 <= i < j implies r[i].0 != pid by {
            assert(r[i].0 < r[j].0);
        }
        lemma_lookup_found(r, pid, j);
    } else {
        assert forall|i: int| 0 <= i < r.len() implies r[i].0 != pid by {
            assert(ids.contains(r[i].0));
        }
        lemma_lookup_absent(r, pid);
    }
}

/// Two lists of entries, each in strictly ascending keys, with the same keys
/// and the same amount under each key, are the same list.
proof fn lemma_sorted_entries_unique(r1: Seq<(u32, i128)>, r2: Seq<(u32, i128)>)
    requires
        forall|i: int, j: int| 0 <= i < j < r1.len() ==> r1[i].0 < r1[j].0,
        forall|i: int, j: int| 0 <= i < j < r2.len() ==> r2[i].0 < r2[j].0,
        forall|k: u32| #[trigger] has_key(r1, k) == has_key(r2, k),
        forall|i: int, j: int|
            0 <= i < r1.len() && 0 <= j < r2.len() && r1[i].0 == r2[j].0 ==> r1[i].1 == r2[j].1,
    ensures
        r1 == r2,
    decreases r1.len(),
{
    if r1.len() == 0 || r2.len() == 0 {
        if r1.len() > 0 {
            assert(has_key(r1, r1[0].0));
            assert(has_key(r2, r1[0].0));
        }
        if r2.len() > 0 {
            assert(has_key(r2, r2[0].0));
            assert(has_key(r1, r2[0].0));
        }
        assert(r1 =~= r2);
    } else {
        let n1 = r1.len() - 1;
        let n2 = r2.len() - 1;
        assert(has_key(r1, r1[n1].0));
        assert(has_key(r2, r1[n1].0));
        assert(has_key(r2, r2[n2].0));
        assert(has_key(r1, r2[n2].0));
        let j = choose|j: int| 0 <= j < r2.len() && r2[j].0 == r1[n1].0;
        let i = choose|i: int| 0 <= i < r1.len() && r1[i].0 == r2[n2].0;
        if j < n2 {
            assert(r2[j].0 < r2[n2].0);
        }
        if i < n1 {
            assert(r1[i].0 < r1[n1].0);
        }
        assert(r1[n1].0 == r2[n2].0);
        let m = r1[n1].0;
        let u1 = r1.drop_last();
        let u2 = r2.drop_last();
        assert forall|k: u32| #[trigger] has_key(u1, k) == has_key(u2, k) by {
            if has_key(u1, k) {
                let a = choose|a: int| 0 <= a < u1.len() && u1[a].0 == k;
                assert(r1[a].0 < m);
                assert(has_key(r1, k));
                assert(has_key(r2, k));
                let b = choose|b: int| 0 <= b < r2.len() && r2[b].0 == k;
                assert(b != n2);
                assert(u2[b].0 == k);
            }
            if has_key(u2, k) {
                let b = choose|b: int| 0 <= b < u2.len() && u2[b].0 == k;
                assert(r2[b].0 < m);
                assert(has_key(r2, k));
                assert(has_key(r1, k));
                let a = choose|a: int| 0 <= a < r1.len() && r1[a].0 == k;
                assert(a != n1);
                assert(u1[a].0 == k);
            }
        }
        lemma_sorted_entries_unique(u1, u2);
        assert(r1 =~= r2) by {
            assert forall|k: int| 0 <= k < r1.len() implies r1[k] == r2[k] by {
                if k < n1 {
                    assert(u1[k] == u2[k]);
                }
            }
        }
    }
}

/// The results of a round are determined: two lists that are both the
/// round's matching results are equal.
pub proof fn lemma_matching_results_unique(
    s: Seq<ContributionView>,
    pool: int,
    p: int,
    r1: Seq<(u32, i128)>,
    r2: Seq<(u32, i128)>,
)
    requires
        are_matching_results(r1, s, pool, p),
        are_matching_results(r2, s, pool, p),
    ensures
        r1 == r2,
{
    lemma_results_agree(s, s, pool, p, r1, r2);
}

/// Results of two rounds that have the same projects, each with the same
/// amount, are equal.
proof fn lemma_results_agree(
    s: Seq<ContributionView>,
    t: Seq<ContributionView>,
    pool: int,
    p: int,
    r1: Seq<(u32, i128)>,
    r2: Seq<(u32, i128)>,
)
    requires
        are_matching_results(r1, s, pool, p),
        are_matching_results(r2, t, pool, p),
        forall|pid: u32| #[trigger] project_ids(s).contains(pid) == project_ids(t).contains(pid),
        forall|pid: u32| #[trigger] matching_amount(s, pid, pool, p) == matching_amount(t, pid, pool, p),
    ensures
        r1 == r2,
{
    assert forall|k: u32| #[trigger] has_key(r1, k) == has_key(r2, k) by {
        if has_key(r1, k) {
            let i = choose|i: int| 0 <= i < r1.len() && r1[i].0 == k;
            assert(project_ids(s).contains(r1[i].0));
            assert(project_ids(t).contains(k));
        }
        if has_key(r2, k) {
            let i = choose|i: int| 0 <= i < r2.len() && r2[i].0 == k;
            assert(project_ids(t).contains(r2[i].0));
            assert(project_ids(s).contains(k));
        }
    }
    assert forall|i: int, j: int|
        0 <= i < r1.len() && 0 <= j < r2.len() && r1[i].0 == r2[j].0 implies r1[i].1 == r2[j].1 by {
        assert(matching_amount(s, r1[i].0, pool, p) == matching_amount(t, r1[i].0, pool, p));
    }
    lemma_sorted_entries_unique(r1, r2);
}

// ---------------------------------------------------------------------------
// What the results depend on.
// ---------------------------------------------------------------------------

/// Some contribution in `s` goes to `pid`.
pub open spec fn gives_to(s: Seq<ContributionView>, pid: u32) -> bool {
    exists|i: int| 0 <= i < s.len() && #[trigger] s[i].project_id == pid
}

/// A project is among the projects of a round exactly when some
/// contribution goes to it.
pub proof fn lemma_project_ids_contains(s: Seq<ContributionView>, pid: u32)
    ensures
        project_ids(s).contains(pid) == gives_to(s, pid),
{
    lemma_project_ids(s);
}

proof fn lemma_has_given_push(s: Seq<ContributionView>, c: ContributionView, pid: u32, d: Seq<u8>)
    ensures
        has_given(s.push(c), pid, d) <==> (has_given(s, pid, d) || (c.project_id == pid
            && c.donor == d)),
{
    let t = s.push(c);
    if has_given(t, pid, d) {
        let i = choose|i: int| 0 <= i < t.len() && #[trigger] t[i].project_id == pid && t[i].donor == d;
        if i < s.len() {
            assert(s[i].project_id == pid);
        }
    }
    if has_given(s, pid, d) {
        let i = choose|i: int| 0 <= i < s.len() && #[trigger] s[i].project_id == pid && s[i].donor == d;
        assert(t[i].project_id == pid);
    }
    if c.project_id == pid && c.donor == d {
        assert(t[s.len() as int].project_id == pid);
    }
}

proof fn lemma_total_push(s: Seq<ContributionView>, c: ContributionView, pid: u32, p: int)
    ensures
        project_total(s.push(c), pid, p) == project_total(s, pid, p) + if c.project_id == pid {
            c.amount * p
        } else {
            0
        },
        gives_to(s.push(c), pid) == (gives_to(s, pid) || c.project_id == pid),
{
    assert(s.push(c).drop_last() =~= s);
    let t = s.push(c);
    if gives_to(t, pid) {
        let i = choose|i: int| 0 <= i < t.len() && #[trigger] t[i].project_id == pid;
        if i < s.len() {
            assert(s[i].project_id == pid);
        }
    }
    if gives_to(s, pid) {
        let i = choose|i: int| 0 <= i < s.len() && #[trigger] s[i].project_id == pid;
        assert(t[i].project_id == pid);
    }
    if c.project_id == pid {
        assert(t[s.len() as int].project_id == pid);
    }
}

/// What a single contribution gives.
proof fn lemma_single(c: ContributionView, pid: u32, d: Seq<u8>, p: int)
    ensures
        project_total(seq![c], pid, p) == if c.project_id == pid {
            c.amount * p
        } else {
            0
        },
        gives_to(seq![c], pid) == (c.project_id == pid),
        has_given(seq![c], pid, d) == (c.project_id == pid && c.donor == d),
{
    let e = Seq::<ContributionView>::empty();
    assert(e.push(c) =~= seq![c]);
    lemma_total_push(e, c, pid, p);
    lemma_has_given_push(e, c, pid, d);
    assert(!gives_to(e, pid));
    assert(!has_given(e, pid, d));
}

/// The donors of `pid` in `s`.
spec fn donor_set(s: Seq<ContributionView>, pid: u32) -> Set<Seq<u8>> {
    Set::new(|d: Seq<u8>| has_given(s, pid, d))
}

/// The number of distinct donors is the size of the set of donors.
proof fn lemma_donor_count_is_set_size(s: Seq<ContributionView>, pid: u32)
    ensures
        donor_set(s, pid).finite(),
        donor_count(s, pid) == donor_set(s, pid).len(),
    decreases s.len(),
{
    if s.len() == 0 {
        assert(donor_set(s, pid) =~= Set::<Seq<u8>>::empty());
    } else {
        let u = s.drop_last();
        let c = s.last();
        assert(u.push(c) =~= s);
        lemma_donor_count_is_set_size(u, pid);
        assert forall|d: Seq<u8>| #[trigger] has_given(s, pid, d) == (has_given(u, pid, d) || (
            c.project_id == pid && c.donor == d)) by {
            lemma_has_given_push(u, c, pid, d);
        }
        if c.project_id == pid {
            assert(donor_set(s, pid) =~= donor_set(u, pid).insert(c.donor));
            if has_given(u, pid, c.donor) {
                assert(donor_set(u, pid).contains(c.donor));
            }
        } else {
            assert(donor_set(s, pid) =~= donor_set(u, pid));
        }
    }
}

/// Two lists of contributions that agree, project by project, on the total
/// given and on who gave, have the same projects and the same amounts.
proof fn lemma_same_totals_same_amounts(s: Seq<ContributionView>, t: Seq<ContributionView>, pool: int, p: int)
    requires
        forall|pid: u32| #[trigger] project_total(s, pid, p) == project_total(t, pid, p),
        forall|pid: u32, d: Seq<u8>| #[trigger] has_given(s, pid, d) == has_given(t, pid, d),
        forall|pid: u32| #[trigger] gives_to(s, pid) == gives_to(t, pid),
    ensures
        forall|pid: u32| #[trigger] project_ids(s).contains(pid) == project_ids(t).contains(pid),
        forall|pid: u32| #[trigger] matching_amount(s, pid, pool, p) == matching_amount(t, pid, pool, p),
        forall|pid: u32| #[trigger] donor_count(s, pid) == donor_count(t, pid),
        total_weight(s, p) == total_weight(t, p),
{
    lemma_project_ids(s);
    lemma_project_ids(t);
    assert forall|pid: u32| #[trigger] donor_count(s, pid) == donor_count(t, pid) by {
        lemma_donor_count_is_set_size(s, pid);
        lemma_donor_count_is_set_size(t, pid);
        assert(donor_set(s, pid) =~= donor_set(t, pid));
    }
    assert forall|pid: u32| #[trigger] quadratic_weight(s, pid, p) == quadratic_weight(t, pid, p) by {
        assert(project_total(s, pid, p) == project_total(t, pid, p));
        assert(donor_count(s, pid) == donor_count(t, pid));
    }
    let is = project_ids(s);
    let it = project_ids(t);
    assert forall|x: u32| is.contains(x) == it.contains(x) by {
        assert(gives_to(s, x) == gives_to(t, x));
    }
    lemma_weight_sum_congruent(s, t, it, p);
    lemma_weight_sum_same_set(s, is, it, p);
    assert(total_weight(s, p) == total_weight(t, p));
    assert forall|pid: u32| #[trigger] matching_amount(s, pid, pool, p) == matching_amount(t, pid, pool, p) by {
        assert(quadratic_weight(s, pid, p) == quadratic_weight(t, pid, p));
    }
}

proof fn lemma_weight_sum_congruent(a: Seq<ContributionView>, b: Seq<ContributionView>, ids: Seq<u32>, p: int)
    requires
        forall|pid: u32| #[trigger] quadratic_weight(a, pid, p) == quadratic_weight(b, pid, p),
    ensures
        weight_sum(a, ids, p) == weight_sum(b, ids, p),
    decreases ids.len(),
{
    if ids.len() > 0 {
        lemma_weight_sum_congruent(a, b, ids.drop_last(), p);
        assert(quadratic_weight(a, ids.last(), p) == quadratic_weight(b, ids.last(), p));
    }
}

/// Totals, donors and projects of a concatenation come from its two parts.
proof fn lemma_concat_parts(a: Seq<ContributionView>, b: Seq<ContributionView>, pid: u32, d: Seq<u8>, p: int)
    ensures
        project_total(a + b, pid, p) == project_total(a, pid, p) + project_total(b, pid, p),
        has_given(a + b, pid, d) == (has_given(a, pid, d) || has_given(b, pid, d)),
        gives_to((a + b), pid) == (gives_to(a, pid) || gives_to(b, pid)),
    decreases b.len(),
{
    let ab = a + b;
    if b.len() == 0 {
        assert(ab =~= a);
    } else {
        let b1 = b.drop_last();
        assert(ab.drop_last() =~= a + b1);
        assert(ab.last() == b.last());
        lemma_concat_parts(a, b1, pid, d, p);
        assert(b1.push(b.last()) =~= b);
        assert((a + b1).push(b.last()) =~= ab);
        lemma_has_given_push(a + b1, b.last(), pid, d);
        lemma_has_given_push(b1, b.last(), pid, d);
    }
    if gives_to(ab, pid) {
        let i = choose|i: int| 0 <= i < ab.len() && #[trigger] ab[i].project_id == pid;
        if i < a.len() {
            assert(a[i].project_id == pid);
        } else {
            assert(b[i - a.len()].project_id == pid);
        }
    }
    if gives_to(a, pid) {
        let i = choose|i: int| 0 <= i < a.len() && #[trigger] a[i].project_id == pid;
        assert(ab[i].project_id == pid);
    }
    if gives_to(b, pid) {
        let i = choose|i: int| 0 <= i < b.len() && #[trigger] b[i].project_id == pid;
        assert(ab[a.len() + i].project_id == pid);
    }
}

/// The matching results do not depend on the order of the contributions:
/// results computed from any reordering are the same list.
pub proof fn lemma_order_does_not_matter(
    s: Seq<ContributionView>,
    t: Seq<ContributionView>,
    pool: int,
    p: int,
    r1: Seq<(u32, i128)>,
    r2: Seq<(u32, i128)>,
)
    requires
        t.to_multiset() == s.to_multiset(),
        are_matching_results(r1, s, pool, p),
        are_matching_results(r2, t, pool, p),
    ensures
        r1 == r2,
        forall|pid: u32| #[trigger] matching_amount(s, pid, pool, p) == matching_amount(t, pid, pool, p),
{
    lemma_permutation_parts(s, t, p);
    lemma_same_totals_same_amounts(s, t, pool, p);
    lemma_results_agree(s, t, pool, p, r1, r2);
}

proof fn lemma_permutation_parts(s: Seq<ContributionView>, t: Seq<ContributionView>, p: int)
    requires
        t.to_multiset() == s.to_multiset(),
    ensures
        forall|pid: u32| #[trigger] project_total(s, pid, p) == project_total(t, pid, p),
        forall|pid: u32, d: Seq<u8>| #[trigger] has_given(s, pid, d) == has_given(t, pid, d),
        forall|pid: u32| #[trigger] gives_to(s, pid) == gives_to(t, pid),
    decreases s.len(),
{
    broadcast use vstd::seq_lib::group_to_multiset_ensures;

    if s.len() == 0 {
        assert(t.len() == t.to_multiset().len());
        assert(s.len() == s.to_multiset().len());
        assert(t =~= s);
    } else {
        let x = s.last();
        let u = s.drop_last();
        assert(u.push(x) =~= s);
        assert(s.to_multiset().count(x) > 0);
        assert(t.contains(x));
        let k = choose|k: int| 0 <= k < t.len() && t[k] == x;
        let t0 = t.take(k);
        let t1 = t.skip(k + 1);
        assert(t =~= t0 + seq![x] + t1);
        assert(t.remove(k) =~= t0 + t1);
        assert(t.remove(k).to_multiset() =~= u.to_multiset());
        lemma_permutation_parts(u, t0 + t1, p);
        assert forall|pid: u32, d: Seq<u8>|
            #[trigger] has_given(s, pid, d) == has_given(t, pid, d) && project_total(s, pid, p)
                == project_total(t, pid, p) && gives_to(s, pid) == gives_to(t, pid) by {
            lemma_concat_parts(t0 + seq![x], t1, pid, d, p);
            lemma_concat_parts(t0, seq![x], pid, d, p);
            lemma_concat_parts(t0, t1, pid, d, p);
            lemma_single(x, pid, d, p);
            lemma_has_given_push(u, x, pid, d);
            lemma_total_push(u, x, pid, p);
            assert(has_given(u, pid, d) == has_given(t0 + t1, pid, d));
            assert(project_total(u, pid, p) == project_total(t0 + t1, pid, p));
            assert(gives_to(u, pid) == gives_to(t0 + t1, pid));
        }
        assert forall|pid: u32| #[trigger] project_total(s, pid, p) == project_total(t, pid, p) by {
            assert(has_given(s, pid, x.donor) == has_given(t, pid, x.donor));
        }
        assert forall|pid: u32| #[trigger] gives_to(s, pid) == gives_to(t, pid) by {
            assert(has_given(s, pid, x.donor) == has_given(t, pid, x.donor));
        }
    }
}

/// `s` with its `k`-th gift split into two gifts of `a` and `b` by the same
/// donor to the same project.
pub open spec fn split_gift(s: Seq<ContributionView>, k: int, a: i128, b: i128) -> Seq<ContributionView> {
    s.take(k) + seq![
        ContributionView { donor: s[k].donor, project_id: s[k].project_id, amount: a },
        ContributionView { donor: s[k].donor, project_id: s[k].project_id, amount: b },
    ] + s.skip(k + 1)
}

proof fn lemma_split_parts(s: Seq<ContributionView>, k: int, a: i128, b: i128, p: int)
    requires
        0 <= k < s.len(),
        s[k].amount == a + b,
    ensures
        forall|pid: u32| #[trigger] project_total(s, pid, p) == project_total(split_gift(s, k, a, b), pid, p),
        forall|pid: u32, d: Seq<u8>| #[trigger] has_given(s, pid, d) == has_given(split_gift(s, k, a, b), pid, d),
        forall|pid: u32| #[trigger] gives_to(s, pid) == gives_to(split_gift(s, k, a, b), pid),
{
    let c = s[k];
    let ca = ContributionView { donor: c.donor, project_id: c.project_id, amount: a };
    let cb = ContributionView { donor: c.donor, project_id: c.project_id, amount: b };
    let s0 = s.take(k);
    let s1 = s.skip(k + 1);
    let t = split_gift(s, k, a, b);
    assert(s =~= s0 + seq![c] + s1);
    let one = seq![c];
    let two = seq![ca, cb];
    assert(t == s0 + two + s1);
    assert forall|pid: u32, d: Seq<u8>|
        #[trigger] has_given(one, pid, d) == has_given(two, pid, d) && project_total(one, pid, p)
            == project_total(two, pid, p) && gives_to(one, pid) == gives_to(two, pid) by {
        lemma_single(c, pid, d, p);
        lemma_single(ca, pid, d, p);
        assert(seq![ca].push(cb) =~= two);
        lemma_total_push(seq![ca], cb, pid, p);
        lemma_has_given_push(seq![ca], cb, pid, d);
        assert(a * p + b * p == (a + b) * p) by (nonlinear_arith);
    }
    assert forall|pid: u32, d: Seq<u8>|
        #[trigger] has_given(s, pid, d) == has_given(t, pid, d) && project_total(s, pid, p)
            == project_total(t, pid, p) && gives_to(s, pid) == gives_to(t, pid) by {
        lemma_concat_parts(s0 + one, s1, pid, d, p);
        lemma_concat_parts(s0, one, pid, d, p);
        lemma_concat_parts(s0 + two, s1, pid, d, p);
        lemma_concat_parts(s0, two, pid, d, p);
        assert(has_given(one, pid, d) == has_given(two, pid, d));
    }
    assert forall|pid: u32| #[trigger] project_total(s, pid, p) == project_total(t, pid, p) by {
        assert(has_given(s, pid, c.donor) == has_given(t, pid, c.donor));
    }
    assert forall|pid: u32| #[trigger] gives_to(s, pid) == gives_to(t, pid) by {
        assert(has_given(s, pid, c.donor) == has_given(t, pid, c.donor));
    }
}

/// Splitting one gift into two gifts by the same donor to the same project,
/// whose amounts add up to the original, leaves the results unchanged.
pub proof fn lemma_split_gift_changes_nothing(
    s: Seq<ContributionView>,
    k: int,
    a: i128,
    b: i128,
    pool: int,
    p: int,
    r1: Seq<(u32, i128)>,
    r2: Seq<(u32, i128)>,
)
    requires
        0 <= k < s.len(),
        s[k].amount == a + b,
        are_matching_results(r1, s, pool, p),
        are_matching_results(r2, split_gift(s, k, a, b), pool, p),
    ensures
        r1 == r2,
{
    let t = split_gift(s, k, a, b);
    lemma_split_parts(s, k, a, b, p);
    lemma_same_totals_same_amounts(s, t, pool, p);
    lemma_results_agree(s, t, pool, p, r1, r2);
}

/// With nonnegative amounts, adding up never leaves the `i128` range exactly
/// when no project's final total leaves it.
proof fn lemma_aggregation_fits_nonneg(s: Seq<ContributionView>, p: int)
    requires
        p > 0,
        forall|i: int| 0 <= i < s.len() ==> (#[trigger] s[i]).amount >= 0,
    ensures
        aggregation_fits(s, p) == (forall|pid: u32| #[trigger] gives_to(s, pid) ==> fits_i128(project_total(s, pid, p))),
        forall|pid: u32| #[trigger] project_total(s, pid, p) >= 0,
        forall|i: int| 0 <= i < s.len() ==> 0 <= (#[trigger] s[i]).amount * p <= project_total(s, s[i].project_id, p),
    decreases s.len(),
{
    if s.len() > 0 {
        let u = s.drop_last();
        let c = s.last();
        assert(u.push(c) =~= s);
        assert forall|i: int| 0 <= i < u.len() implies (#[trigger] u[i]).amount >= 0 by {
            assert(u[i] == s[i]);
        }
        lemma_aggregation_fits_nonneg(u, p);
        assert(c.amount * p >= 0) by (nonlinear_arith)
            requires
                c.amount >= 0,
                p > 0,
        ;
        assert forall|pid: u32| #[trigger] project_total(s, pid, p) >= 0
            && project_total(u, pid, p) <= project_total(s, pid, p) && gives_to(s, pid) == (gives_to(u, pid)
            || c.project_id == pid) by {
            lemma_total_push(u, c, pid, p);
            assert(project_total(u, pid, p) >= 0);
        }
        lemma_total_push(u, c, c.project_id, p);
        assert forall|i: int| 0 <= i < s.len() implies 0 <= (#[trigger] s[i]).amount * p <= project_total(
            s,
            s[i].project_id,
            p,
        ) by {
            if i < u.len() {
                assert(u[i] == s[i]);
                assert(u[i].amount * p <= project_total(u, u[i].project_id, p));
                assert(project_total(u, u[i].project_id, p) <= project_total(s, u[i].project_id, p));
            }
        }
        if forall|pid: u32| #[trigger] gives_to(s, pid) ==> fits_i128(project_total(s, pid, p)) {
            assert forall|pid: u32| #[trigger] gives_to(u, pid) implies fits_i128(project_total(u, pid, p)) by {
                assert(gives_to(s, pid));
            }
            assert(gives_to(s, c.project_id));
        }
        if aggregation_fits(s, p) {
            assert forall|pid: u32| #[trigger] gives_to(s, pid) implies fits_i128(project_total(s, pid, p)) by {
                if pid != c.project_id {
                    lemma_total_push(u, c, pid, p);
                }
            }
        }
    }
}

/// Rounds whose projects have the same totals and the same donors, with no
/// negative amount, succeed alike.
proof fn lemma_same_parts_same_success(s: Seq<ContributionView>, t: Seq<ContributionView>, pool: int, p: int)
    requires
        forall|pid: u32| #[trigger] project_total(s, pid, p) == project_total(t, pid, p),
        forall|pid: u32, d: Seq<u8>| #[trigger] has_given(s, pid, d) == has_given(t, pid, d),
        forall|pid: u32| #[trigger] gives_to(s, pid) == gives_to(t, pid),
        forall|i: int| 0 <= i < s.len() ==> (#[trigger] s[i]).amount >= 0,
        forall|i: int| 0 <= i < t.len() ==> (#[trigger] t[i]).amount >= 0,
    ensures
        calculation_succeeds(t, pool, p) == calculation_succeeds(s, pool, p),
{
    if p > 0 {
        lemma_same_totals_same_amounts(s, t, pool, p);
        lemma_aggregation_fits_nonneg(s, p);
        lemma_aggregation_fits_nonneg(t, p);
        let ga_s = forall|pid: u32| #[trigger] gives_to(s, pid) ==> fits_i128(project_total(s, pid, p));
        let ga_t = forall|pid: u32| #[trigger] gives_to(t, pid) ==> fits_i128(project_total(t, pid, p));
        if ga_s {
            assert forall|pid: u32| #[trigger] gives_to(t, pid) implies fits_i128(project_total(t, pid, p)) by {
                assert(gives_to(s, pid));
            }
        }
        if ga_t {
            assert forall|pid: u32| #[trigger] gives_to(s, pid) implies fits_i128(project_total(s, pid, p)) by {
                assert(gives_to(t, pid));
            }
        }
        assert(aggregation_fits(s, p) == aggregation_fits(t, p));
        let is = project_ids(s);
        let it = project_ids(t);
        lemma_project_ids(s);
        lemma_project_ids(t);
        assert forall|pid: u32| #[trigger] weight_fits(s, pid, p) == weight_fits(t, pid, p)
            && payout_fits(s, pid, pool, p) == payout_fits(t, pid, pool, p) by {
            assert(project_total(s, pid, p) == project_total(t, pid, p));
            assert(donor_count(s, pid) == donor_count(t, pid));
        }
        let wf_s = forall|i: int| 0 <= i < is.len() ==> weight_fits(s, #[trigger] is[i], p);
        let wf_t = forall|i: int| 0 <= i < it.len() ==> weight_fits(t, #[trigger] it[i], p);
        let pf_s = forall|i: int| 0 <= i < is.len() ==> payout_fits(s, #[trigger] is[i], pool, p);
        let pf_t = forall|i: int| 0 <= i < it.len() ==> payout_fits(t, #[trigger] it[i], pool, p);
        assert(wf_s == wf_t && pf_s == pf_t) by {
            if wf_s {
                assert forall|i: int| 0 <= i < it.len() implies weight_fits(t, #[trigger] it[i], p) by {
                    assert(it.contains(it[i]));
                    assert(is.contains(it[i]));
                    let j = choose|j: int| 0 <= j < is.len() && is[j] == it[i];
                    assert(weight_fits(s, is[j], p));
                }
            }
            if wf_t {
                assert forall|i: int| 0 <= i < is.len() implies weight_fits(s, #[trigger] is[i], p) by {
                    assert(is.contains(is[i]));
                    assert(it.contains(is[i]));
                    let j = choose|j: int| 0 <= j < it.len() && it[j] == is[i];
                    assert(weight_fits(t, it[j], p));
                }
            }
            if pf_s {
                assert forall|i: int| 0 <= i < it.len() implies payout_fits(t, #[trigger] it[i], pool, p) by {
                    assert(it.contains(it[i]));
                    assert(is.contains(it[i]));
                    let j = choose|j: int| 0 <= j < is.len() && is[j] == it[i];
                    assert(payout_fits(s, is[j], pool, p));
                }
            }
            if pf_t {
                assert forall|i: int| 0 <= i < is.len() implies payout_fits(s, #[trigger] is[i], pool, p) by {
                    assert(is.contains(is[i]));
                    assert(it.contains(is[i]));
                    let j = choose|j: int| 0 <= j < it.len() && it[j] == is[i];
                    assert(payout_fits(t, it[j], pool, p));
                }
            }
        }
    }
}

/// Whether a round succeeds does not depend on the order of the
/// contributions, when no amount is negative.
pub proof fn lemma_success_does_not_depend_on_order(s: Seq<ContributionView>, t: Seq<ContributionView>, pool: int, p: int)
    requires
        t.to_multiset() == s.to_multiset(),
        forall|i: int| 0 <= i < s.len() ==> (#[trigger] s[i]).amount >= 0,
    ensures
        calculation_succeeds(t, pool, p) == calculation_succeeds(s, pool, p),
{
    broadcast use vstd::seq_lib::group_to_multiset_ensures;

    lemma_permutation_parts(s, t, p);
    assert forall|i: int| 0 <= i < t.len() implies (#[trigger] t[i]).amount >= 0 by {
        assert(t.contains(t[i]));
        assert(t.to_multiset().count(t[i]) == s.to_multiset().count(t[i]));
        assert(s.contains(t[i]) <==> s.to_multiset().count(t[i]) > 0);
        assert(s.contains(t[i]));
    }
    lemma_same_parts_same_success(s, t, pool, p);
}

/// Whether a round succeeds does not change when one gift is split into two
/// nonnegative gifts by the same donor to the same project, when no amount
/// is negative.
pub proof fn lemma_split_gift_keeps_success(s: Seq<ContributionView>, k: int, a: i128, b: i128, pool: int, p: int)
    requires
        0 <= k < s.len(),
        s[k].amount == a + b,
        a >= 0,
        b >= 0,
        forall|i: int| 0 <= i < s.len() ==> (#[trigger] s[i]).amount >= 0,
    ensures
        calculation_succeeds(split_gift(s, k, a, b), pool, p) == calculation_succeeds(s, pool, p),
{
    let t = split_gift(s, k, a, b);
    lemma_split_parts(s, k, a, b, p);
    assert forall|i: int| 0 <= i < t.len() implies (#[trigger] t[i]).amount >= 0 by {
        if i < k {
            assert(t[i] == s[i]);
        } else if i > k + 1 {
            assert(t[i] == s[i - 1]);
        }
    }
    lemma_same_parts_same_success(s, t, pool, p);
}

} // verus!
