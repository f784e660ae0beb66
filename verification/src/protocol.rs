//! The matching-pool contract: its stored state and the rules of each call.
//! The caller's authorization and the token transfer belong to the host; a
//! call here decides, updates the state, and says what to pay out.
use vstd::prelude::*;
use std::collections::HashMap;
use crate::quadratic_funding::{
    are_matching_results, calculation_succeeds, contribution_views, has_key, lemma_project_ids_distinct,
    lookup, project_ids, results_by_arrival, Contribution, ContributionView,
    MatchingResults, QuadraticFundingEngine,
};

verus! {

broadcast use vstd::std_specs::hash::group_hash_axioms;

/// The precision at which the matching is computed.
pub const MATCHING_POOL_PRECISION: i128 = 1_000_000_000;

/// A registered dependency project.
#[derive(Clone, Debug, PartialEq, Eq)]
pub struct Project {
    pub id: u32,
    pub owner: Vec<u8>,
    pub name: String,
    pub description: String,
    pub match_multiplier: i128,
}

/// What is stored of a project.
pub struct ProjectView {
    pub id: u32,
    pub owner: Seq<u8>,
    pub name: Seq<char>,
    pub description: Seq<char>,
    pub match_multiplier: i128,
}

impl View for Project {
    type V = ProjectView;

    open spec fn view(&self) -> ProjectView {
        ProjectView {
            id: self.id,
            owner: self.owner@,
            name: self.name@,
            description: self.description@,
            match_multiplier: self.match_multiplier,
        }
    }
}

/// Why a call was refused.
#[derive(Debug, PartialEq, Eq, Structural, Clone, Copy)]
pub enum ProtocolError {
    /// The contract has no admin yet.
    NotInitialized,
    /// No project has the given id.
    ProjectNotFound,
    /// A counter or the pool would leave its integer range.
    Overflow,
    /// The quadratic funding computation failed (see `calculation_succeeds`).
    CalculationFailed,
}

/// Tokens to transfer from the contract to a project's owner.
#[derive(Debug)]
pub struct Payout {
    pub recipient: Vec<u8>,
    pub amount: i128,
}

/// The contract's stored state.
pub struct ProtocolView {
    pub admin: Option<Seq<u8>>,
    pub matching_pool: Option<i128>,
    pub contribution_count: Option<u32>,
    pub projects: Map<u32, ProjectView>,
    pub contributions: Map<u32, ContributionView>,
    pub contribution_index: Map<(u32, Seq<u8>), u32>,
    pub matching_results: Map<u32, i128>,
}

/// The contract's state: what its storage holds under each key.
pub struct AlloProtocol {
    admin: Option<Vec<u8>>,
    matching_pool: Option<i128>,
    contribution_count: Option<u32>,
    projects: HashMap<u32, Project>,
    contributions: HashMap<u32, Contribution>,
    contribution_index: Vec<(u32, Vec<u8>, u32)>,
    matching_results: HashMap<u32, i128>,
}

/// The latest contribution id recorded for each (project, donor) pair; a
/// later record replaces an earlier one.
pub open spec fn index_map(records: Seq<(u32, Vec<u8>, u32)>) -> Map<(u32, Seq<u8>), u32>
    decreases records.len(),
{
    if records.len() == 0 {
        Map::empty()
    } else {
        index_map(records.drop_last()).insert(
            (records.last().0, records.last().1@),
            records.last().2,
        )
    }
}

impl View for AlloProtocol {
    type V = ProtocolView;

    closed spec fn view(&self) -> ProtocolView {
        ProtocolView {
            admin: match self.admin {
                Some(a) => Some(a@),
                None => None,
            },
            matching_pool: self.matching_pool,
            contribution_count: self.contribution_count,
            projects: self.projects@.map_values(|p: Project| p@),
            contributions: self.contributions@.map_values(|c: Contribution| c@),
            contribution_index: index_map(self.contribution_index@),
            matching_results: self.matching_results@,
        }
    }
}

/// The matching pool, 0 when never set.
pub open spec fn pool_or_zero(v: ProtocolView) -> int {
    match v.matching_pool {
        Some(x) => x as int,
        None => 0,
    }
}

/// The shared counter of project and contribution ids, 0 when never set.
pub open spec fn count_or_zero(v: ProtocolView) -> int {
    match v.contribution_count {
        Some(x) => x as int,
        None => 0,
    }
}

/// The stored contributions with ids `1..=n`, in id order.
pub open spec fn gathered_upto(m: Map<u32, ContributionView>, n: int) -> Seq<ContributionView>
    decreases n,
{
    if n <= 0 {
        Seq::empty()
    } else {
        let g = gathered_upto(m, n - 1);
        if m.contains_key(n as u32) {
            g.push(m[n as u32])
        } else {
            g
        }
    }
}

/// The contributions that a matching round takes into account: those with
/// ids from 1 to the counter, in id order.
pub open spec fn gathered_contributions(v: ProtocolView) -> Seq<ContributionView> {
    gathered_upto(v.contributions, count_or_zero(v))
}

/// `m` with each entry of `entries` recorded in turn.
pub open spec fn record_results(m: Map<u32, i128>, entries: Seq<(u32, i128)>) -> Map<u32, i128>
    decreases entries.len(),
{
    if entries.len() == 0 {
        m
    } else {
        record_results(m, entries.drop_last()).insert(entries.last().0, entries.last().1)
    }
}

/// The amount stored for a project after a matching round, 0 when none.
pub open spec fn result_or_zero(v: ProtocolView, project_id: u32) -> int {
    if v.matching_results.contains_key(project_id) {
        v.matching_results[project_id] as int
    } else {
        0
    }
}

fn copy_contribution(c: &Contribution) -> (r: Contribution)
    ensures
        r@ == c@,
{
    let donor = c.donor.clone();
    proof {
        assert(donor@ =~= c.donor@);
    }
    Contribution { donor, project_id: c.project_id, amount: c.amount }
}

fn copy_bytes(b: &Vec<u8>) -> (r: Vec<u8>)
    ensures
        r@ == b@,
{
    let r = b.clone();
    proof {
        assert(r@ =~= b@);
    }
    r
}

/// A call on the contract that can change its state, with its arguments as
/// stored. Reading calls (`get_matching_result`, `get_project`) change
/// nothing.
pub enum Call {
    Initialize { admin: Seq<u8> },
    FundMatchingPool { amount: i128 },
    RegisterProject { owner: Seq<u8>, name: Seq<char>, description: Seq<char> },
    Contribute { donor: Seq<u8>, project_id: u32, amount: i128 },
    CalculateMatching,
    Distribute { project_id: u32 },
}

/// A matching round on this state succeeds.
pub open spec fn round_succeeds(v: ProtocolView) -> bool {
    &&& v.admin is Some
    &&& calculation_succeeds(
        gathered_contributions(v),
        pool_or_zero(v),
        MATCHING_POOL_PRECISION as int,
    )
}

/// The project-to-amount map that a matching round on this state computes.
pub open spec fn round_map(v: ProtocolView) -> Map<u32, i128> {
    record_results(
        Map::empty(),
        results_by_arrival(
            gathered_contributions(v),
            pool_or_zero(v),
            MATCHING_POOL_PRECISION as int,
        ),
    )
}

/// The state after a call; a refused call leaves the state as it was.
pub open spec fn after_call(v: ProtocolView, c: Call) -> ProtocolView {
    match c {
        Call::Initialize { admin } => ProtocolView { admin: Some(admin), matching_pool: Some(0), ..v },
        Call::FundMatchingPool { amount } => {
            if i128::MIN <= pool_or_zero(v) + amount <= i128::MAX {
                ProtocolView { matching_pool: Some((pool_or_zero(v) + amount) as i128), ..v }
            } else {
                v
            }
        },
        Call::RegisterProject { owner, name, description } => {
            if count_or_zero(v) < u32::MAX {
                let id = (count_or_zero(v) + 1) as u32;
                ProtocolView {
                    contribution_count: Some(id),
                    projects: v.projects.insert(
                        id,
                        ProjectView { id, owner, name, description, match_multiplier: 0 },
                    ),
                    ..v
                }
            } else {
                v
            }
        },
        Call::Contribute { donor, project_id, amount } => {
            if v.projects.contains_key(project_id) && count_or_zero(v) < u32::MAX {
                let id = (count_or_zero(v) + 1) as u32;
                ProtocolView {
                    contribution_count: Some(id),
                    contributions: v.contributions.insert(
                        id,
                        ContributionView { donor, project_id, amount },
                    ),
                    contribution_index: v.contribution_index.insert((project_id, donor), id),
                    ..v
                }
            } else {
                v
            }
        },
        Call::CalculateMatching => {
            if round_succeeds(v) {
                ProtocolView {
                    matching_results: record_results(
                        v.matching_results,
                        results_by_arrival(
                            gathered_contributions(v),
                            pool_or_zero(v),
                            MATCHING_POOL_PRECISION as int,
                        ),
                    ),
                    ..v
                }
            } else {
                v
            }
        },
        Call::Distribute { project_id } => {
            let amount = result_or_zero(v, project_id);
            if v.admin is Some && v.projects.contains_key(project_id) && amount > 0 && i128::MIN
                <= pool_or_zero(v) - amount <= i128::MAX {
                ProtocolView { matching_pool: Some((pool_or_zero(v) - amount) as i128), ..v }
            } else {
                v
            }
        },
    }
}

/// The state after a sequence of calls, in order.
pub open spec fn run(v: ProtocolView, calls: Seq<Call>) -> ProtocolView
    decreases calls.len(),
{
    if calls.len() == 0 {
        v
    } else {
        after_call(run(v, calls.drop_last()), calls.last())
    }
}

/// Recording two lists with the same distinct projects and the same amount
/// for each gives the same map.
proof fn lemma_record_same_entries(m: Map<u32, i128>, r1: Seq<(u32, i128)>, r2: Seq<(u32, i128)>)
    requires
        forall|i: int, j: int| 0 <= i < j < r1.len() ==> r1[i].0 != r1[j].0,
        forall|i: int, j: int| 0 <= i < j < r2.len() ==> r2[i].0 != r2[j].0,
        forall|k: u32| #[trigger] has_key(r1, k) == has_key(r2, k),
        forall|i: int, j: int|
            0 <= i < r1.len() && 0 <= j < r2.len() && r1[i].0 == r2[j].0 ==> r1[i].1 == r2[j].1,
    ensures
        record_results(m, r1) == record_results(m, r2),
{
    lemma_results_recorded(m, r1);
    lemma_results_recorded(m, r2);
    assert forall|k: u32| #[trigger] record_results(m, r1).contains_key(k) == record_results(m, r2).contains_key(k)
        && (record_results(m, r1).contains_key(k) ==> record_results(m, r1)[k] == record_results(m, r2)[k]) by {
        if has_key(r1, k) {
            assert(has_key(r2, k));
            let i = choose|i: int| 0 <= i < r1.len() && r1[i].0 == k;
            let j = choose|j: int| 0 <= j < r2.len() && r2[j].0 == k;
            assert(record_results(m, r1).contains_key(r1[i].0));
            assert(record_results(m, r2).contains_key(r2[j].0));
        } else {
            assert(!has_key(r2, k));
            assert forall|i: int| 0 <= i < r1.len() implies (#[trigger] r1[i]).0 != k by {
                if r1[i].0 == k {
                    assert(has_key(r1, k));
                }
            }
            assert forall|i: int| 0 <= i < r2.len() implies (#[trigger] r2[i]).0 != k by {
                if r2[i].0 == k {
                    assert(has_key(r2, k));
                }
            }
            lemma_results_untouched(m, r1, k);
            lemma_results_untouched(m, r2, k);
        }
    }
    assert(record_results(m, r1) =~= record_results(m, r2));
}

/// Recording a round's results, listed in ascending project id, gives the
/// same map as recording them in arrival order.
proof fn lemma_sorted_records_like_arrival(
    m: Map<u32, i128>,
    s: Seq<ContributionView>,
    pool: int,
    p: int,
    r: Seq<(u32, i128)>,
)
    requires
        are_matching_results(r, s, pool, p),
    ensures
        record_results(m, r) == record_results(m, results_by_arrival(s, pool, p)),
{
    let e = results_by_arrival(s, pool, p);
    let ids = project_ids(s);
    lemma_project_ids_distinct(s);
    assert forall|k: u32| #[trigger] has_key(r, k) == has_key(e, k) by {
        if has_key(r, k) {
            let i = choose|i: int| 0 <= i < r.len() && r[i].0 == k;
            assert(ids.contains(r[i].0));
            let j = choose|j: int| 0 <= j < ids.len() && ids[j] == k;
            assert(e[j].0 == k);
        }
        if has_key(e, k) {
            let j = choose|j: int| 0 <= j < e.len() && e[j].0 == k;
            assert(ids[j] == k);
            assert(ids.contains(k));
        }
    }
    assert forall|i: int, j: int|
        0 <= i < r.len() && 0 <= j < e.len() && r[i].0 == e[j].0 implies r[i].1 == e[j].1 by {
        assert(ids.contains(r[i].0));
    }
    assert forall|i: int, j: int| 0 <= i < j < e.len() implies e[i].0 != e[j].0 by {
        assert(ids[i] != ids[j]);
    }
    lemma_record_same_entries(m, r, e);
}

impl AlloProtocol {
    /// A contract whose storage is empty.
    pub fn new() -> (r: Self)
        ensures
            r@ == (ProtocolView {
                admin: None,
                matching_pool: None,
                contribution_count: None,
                projects: Map::empty(),
                contributions: Map::empty(),
                contribution_index: Map::empty(),
                matching_results: Map::empty(),
            }),
    {
        let r = AlloProtocol {
            admin: None,
            matching_pool: None,
            contribution_count: None,
            projects: HashMap::new(),
            contributions: HashMap::new(),
            contribution_index: Vec::new(),
            matching_results: HashMap::new(),
        };
        proof {
            assert(r@.projects =~= Map::empty());
            assert(r@.contributions =~= Map::empty());
        }
        r
    }

    /// Sets the admin and resets the matching pool to 0.
    pub fn initialize(&mut self, admin: Vec<u8>)
        ensures
            final(self)@ == (ProtocolView {
                admin: Some(admin@),
                matching_pool: Some(0),
                ..old(self)@
            }),
            final(self)@ == after_call(old(self)@, Call::Initialize { admin: admin@ }),
    {
        self.admin = Some(admin);
        self.matching_pool = Some(0);
    }

    /// Adds `amount` to the matching pool.
    pub fn fund_matching_pool(&mut self, amount: i128) -> (r: Result<(), ProtocolError>)
        ensures
            r is Err <==> !(i128::MIN <= pool_or_zero(old(self)@) + amount <= i128::MAX),
            r is Err ==> r == Err::<(), ProtocolError>(ProtocolError::Overflow) && final(self)@ == old(
                self,
            )@,
            r is Ok ==> final(self)@ == (ProtocolView {
                matching_pool: Some((pool_or_zero(old(self)@) + amount) as i128),
                ..old(self)@
            }),
            final(self)@ == after_call(old(self)@, Call::FundMatchingPool { amount }),
    {
        let pool: i128 = match self.matching_pool {
            Some(p) => p,
            None => 0,
        };
        match pool.checked_add(amount) {
            Some(new_pool) => {
                self.matching_pool = Some(new_pool);
                Ok(())
            },
            None => Err(ProtocolError::Overflow),
        }
    }
    /// Registers a project under the next id of the shared counter (which
    /// contributions also advance), and returns that id.
    pub fn register_project(&mut self, owner: Vec<u8>, name: String, description: String) -> (r:
        Result<u32, ProtocolError>)
        ensures
            r is Err <==> count_or_zero(old(self)@) == u32::MAX,
            r is Err ==> r == Err::<u32, ProtocolError>(ProtocolError::Overflow) && final(self)@ == old(
                self,
            )@,
            r matches Ok(id) ==> {
                &&& id == count_or_zero(old(self)@) + 1
                &&& final(self)@ == (ProtocolView {
                    contribution_count: Some(id),
                    projects: old(self)@.projects.insert(
                        id,
                        ProjectView {
                            id,
                            owner: owner@,
                            name: name@,
                            description: description@,
                            match_multiplier: 0,
                        },
                    ),
                    ..old(self)@
                })
            },
            final(self)@ == after_call(
                old(self)@,
                Call::RegisterProject { owner: owner@, name: name@, description: description@ },
            ),
    {
        let count: u32 = match self.contribution_count {
            Some(c) => c,
            None => 0,
        };
        if count == u32::MAX {
            return Err(ProtocolError::Overflow);
        }
        let project_id = count + 1;
        let project = Project { id: project_id, owner, name, description, match_multiplier: 0 };
        let ghost before = self.projects@;
        self.projects.insert(project_id, project);
        self.contribution_count = Some(project_id);
        proof {
            assert(self.projects@.map_values(|p: Project| p@) =~= before.map_values(
                |p: Project| p@,
            ).insert(project_id, project@));
        }
        Ok(project_id)
    }

    /// Records a contribution of `amount` by `donor` to an existing project,
    /// under the next id of the shared counter.
    pub fn contribute(&mut self, donor: Vec<u8>, project_id: u32, amount: i128) -> (r: Result<
        (),
        ProtocolError,
    >)
        ensures
            !old(self)@.projects.contains_key(project_id) ==> r == Err::<(), ProtocolError>(
                ProtocolError::ProjectNotFound,
            ),
            old(self)@.projects.contains_key(project_id) && count_or_zero(old(self)@) == u32::MAX
                ==> r == Err::<(), ProtocolError>(ProtocolError::Overflow),
            r is Ok <==> old(self)@.projects.contains_key(project_id) && count_or_zero(old(self)@)
                < u32::MAX,
            r is Err ==> final(self)@ == old(self)@,
            r is Ok ==> {
                let id = (count_or_zero(old(self)@) + 1) as u32;
                final(self)@ == (ProtocolView {
                    contribution_count: Some(id),
                    contributions: old(self)@.contributions.insert(
                        id,
                        ContributionView { donor: donor@, project_id, amount },
                    ),
                    contribution_index: old(self)@.contribution_index.insert((project_id, donor@), id),
                    ..old(self)@
                })
            },
            final(self)@ == after_call(
                old(self)@,
                Call::Contribute { donor: donor@, project_id, amount },
            ),
    {
        if self.projects.get(&project_id).is_none() {
            return Err(ProtocolError::ProjectNotFound);
        }
        let count: u32 = match self.contribution_count {
            Some(c) => c,
            None => 0,
        };
        if count == u32::MAX {
            return Err(ProtocolError::Overflow);
        }
        let next_id = count + 1;
        let index_donor = copy_bytes(&donor);
        let contribution = Contribution { donor, project_id, amount };
        let ghost before = self.contributions@;
        self.contributions.insert(next_id, contribution);
        self.contribution_index.push((project_id, index_donor, next_id));
        self.contribution_count = Some(next_id);
        proof {
            assert(self.contributions@.map_values(|c: Contribution| c@) =~= before.map_values(
                |c: Contribution| c@,
            ).insert(next_id, contribution@));
            assert(self.contribution_index@.drop_last() == old(self).contribution_index@);
        }
        Ok(())
    }

    /// Computes the quadratic funding match of every project from the
    /// stored contributions and the matching pool, records each project's
    /// amount, and returns the results.
    pub fn calculate_matching(&mut self) -> (r: Result<MatchingResults, ProtocolError>)
        ensures
            old(self)@.admin is None ==> r == Err::<MatchingResults, ProtocolError>(
                ProtocolError::NotInitialized,
            ),
            old(self)@.admin is Some && !calculation_succeeds(
                gathered_contributions(old(self)@),
                pool_or_zero(old(self)@),
                MATCHING_POOL_PRECISION as int,
            ) ==> r == Err::<MatchingResults, ProtocolError>(ProtocolError::CalculationFailed),
            r is Ok <==> old(self)@.admin is Some && calculation_succeeds(
                gathered_contributions(old(self)@),
                pool_or_zero(old(self)@),
                MATCHING_POOL_PRECISION as int,
            ),
            r is Err ==> final(self)@ == old(self)@,
            r matches Ok(results) ==> {
                &&& old(self)@.admin is Some
                &&& calculation_succeeds(
                    gathered_contributions(old(self)@),
                    pool_or_zero(old(self)@),
                    MATCHING_POOL_PRECISION as int,
                )
                &&& are_matching_results(
                    results@,
                    gathered_contributions(old(self)@),
                    pool_or_zero(old(self)@),
                    MATCHING_POOL_PRECISION as int,
                )
                &&& final(self)@ == (ProtocolView {
                    matching_results: record_results(old(self)@.matching_results, results@),
                    ..old(self)@
                })
            },
            final(self)@ == after_call(old(self)@, Call::CalculateMatching),
    {
        if self.admin.is_none() {
            return Err(ProtocolError::NotInitialized);
        }
        let count: u32 = match self.contribution_count {
            Some(c) => c,
            None => 0,
        };
        let matching_pool: i128 = match self.matching_pool {
            Some(p) => p,
            None => 0,
        };
        let ghost stored = self@.contributions;
        let mut contributions: Vec<Contribution> = Vec::new();
        let mut i: u64 = 1;
        while i <= count as u64
            invariant
                1 <= i <= count as u64 + 1,
                stored == self@.contributions,
                contribution_views(contributions@) == gathered_upto(stored, i - 1),
                contributions.len() <= i - 1,
            decreases count as u64 + 1 - i,
        {
            let id = i as u32;
            match self.contributions.get(&id) {
                Some(c) => {
                    let copy = copy_contribution(c);
                    let ghost before = contributions@;
                    contributions.push(copy);
                    proof {
                        assert(contribution_views(contributions@) =~= contribution_views(before).push(copy@));
                        assert(stored.contains_key(id) && stored[id] == c@);
                    }
                },
                None => {
                    proof {
                        assert(!stored.contains_key(id));
                    }
                },
            }
            i += 1;
        }
        let engine = QuadraticFundingEngine::new(MATCHING_POOL_PRECISION);
        proof {
            assert(i - 1 == count);
            assert(contribution_views(contributions@) == gathered_contributions(old(self)@));
            assert(matching_pool == pool_or_zero(old(self)@));
        }
        let results = match engine.calculate(contributions, matching_pool) {
            Some(r) => r,
            None => {
                return Err(ProtocolError::CalculationFailed);
            },
        };
        let ghost before = self.matching_results@;
        let mut k: usize = 0;
        while k < results.len()
            invariant
                0 <= k <= results@.len(),
                self.matching_results@ == record_results(before, results@.take(k as int)),
                self.admin == old(self).admin,
                self.matching_pool == old(self).matching_pool,
                self.contribution_count == old(self).contribution_count,
                self.projects@ == old(self).projects@,
                self.contributions@ == old(self).contributions@,
                self.contribution_index@ == old(self).contribution_index@,
            decreases results@.len() - k,
        {
            let (project_id, amount) = results.entry(k);
            proof {
                assert(results@.take(k + 1).drop_last() =~= results@.take(k as int));
            }
            self.matching_results.insert(project_id, amount);
            k += 1;
        }
        proof {
            assert(results@.take(k as int) =~= results@);
            assert(self@.matching_results == record_results(old(self)@.matching_results, results@));
            lemma_sorted_records_like_arrival(
                old(self)@.matching_results,
                gathered_contributions(old(self)@),
                pool_or_zero(old(self)@),
                MATCHING_POOL_PRECISION as int,
                results@,
            );
        }
        Ok(results)
    }

    /// The amount recorded for a project by the last matching round, 0 when
    /// none.
    pub fn get_matching_result(&self, project_id: u32) -> (r: i128)
        ensures
            r == result_or_zero(self@, project_id),
    {
        match self.matching_results.get(&project_id) {
            Some(amount) => *amount,
            None => 0,
        }
    }

    /// Pays a project its recorded amount: when that amount is positive,
    /// takes it out of the matching pool and returns the payout to make to
    /// the project's owner; otherwise changes nothing.
    pub fn distribute(&mut self, project_id: u32) -> (r: Result<Option<Payout>, ProtocolError>)
        ensures
            old(self)@.admin is None ==> r == Err::<Option<Payout>, ProtocolError>(
                ProtocolError::NotInitialized,
            ),
            old(self)@.admin is Some && !old(self)@.projects.contains_key(project_id) ==> r == Err::<
                Option<Payout>,
                ProtocolError,
            >(ProtocolError::ProjectNotFound),
            old(self)@.admin is Some && old(self)@.projects.contains_key(project_id) && result_or_zero(
                old(self)@,
                project_id,
            ) > 0 && !(i128::MIN <= pool_or_zero(old(self)@) - result_or_zero(old(self)@, project_id)
                <= i128::MAX) ==> r == Err::<Option<Payout>, ProtocolError>(ProtocolError::Overflow),
            r is Ok <==> {
                &&& old(self)@.admin is Some
                &&& old(self)@.projects.contains_key(project_id)
                &&& result_or_zero(old(self)@, project_id) > 0 ==> i128::MIN <= pool_or_zero(
                    old(self)@,
                ) - result_or_zero(old(self)@, project_id) <= i128::MAX
            },
            r is Err ==> final(self)@ == old(self)@,
            r matches Ok(payout) ==> {
                let amount = result_or_zero(old(self)@, project_id);
                &&& old(self)@.admin is Some
                &&& old(self)@.projects.contains_key(project_id)
                &&& amount > 0 ==> {
                    &&& payout matches Some(pay) && pay.amount == amount && pay.recipient@ == old(
                        self,
                    )@.projects[project_id].owner
                    &&& final(self)@ == (ProtocolView {
                        matching_pool: Some((pool_or_zero(old(self)@) - amount) as i128),
                        ..old(self)@
                    })
                }
                &&& amount <= 0 ==> payout is None && final(self)@ == old(self)@
            },
            final(self)@ == after_call(old(self)@, Call::Distribute { project_id }),
    {
        if self.admin.is_none() {
            return Err(ProtocolError::NotInitialized);
        }
        let owner = match self.projects.get(&project_id) {
            Some(project) => copy_bytes(&project.owner),
            None => {
                return Err(ProtocolError::ProjectNotFound);
            },
        };
        let amount = self.get_matching_result(project_id);
        if amount > 0 {
            let pool: i128 = match self.matching_pool {
                Some(p) => p,
                None => 0,
            };
            match pool.checked_sub(amount) {
                Some(new_pool) => {
                    self.matching_pool = Some(new_pool);
                    Ok(Some(Payout { recipient: owner, amount }))
                },
                None => Err(ProtocolError::Overflow),
            }
        } else {
            Ok(None)
        }
    }

    /// The project registered under `project_id`.
    pub fn get_project(&self, project_id: u32) -> (r: Result<&Project, ProtocolError>)
        ensures
            !self@.projects.contains_key(project_id) ==> r == Err::<&Project, ProtocolError>(
                ProtocolError::ProjectNotFound,
            ),
            r matches Ok(project) ==> self@.projects.contains_key(project_id) && project@
                == self@.projects[project_id],
            r is Ok <==> self@.projects.contains_key(project_id),
    {
        match self.projects.get(&project_id) {
            Some(project) => Ok(project),
            None => Err(ProtocolError::ProjectNotFound),
        }
    }

    /// The admin's address, if set.
    pub fn admin(&self) -> (r: Option<&Vec<u8>>)
        ensures
            r is None <==> self@.admin is None,
            r matches Some(a) ==> self@.admin == Some(a@),
    {
        self.admin.as_ref()
    }

    /// The matching pool as stored.
    pub fn matching_pool(&self) -> (r: Option<i128>)
        ensures
            r == self@.matching_pool,
    {
        self.matching_pool
    }

    /// The shared id counter as stored.
    pub fn contribution_count(&self) -> (r: Option<u32>)
        ensures
            r == self@.contribution_count,
    {
        self.contribution_count
    }

    /// The contribution stored under `id`.
    pub fn contribution(&self, id: u32) -> (r: Option<&Contribution>)
        ensures
            r is None <==> !self@.contributions.contains_key(id),
            r matches Some(c) ==> self@.contributions[id] == c@,
    {
        self.contributions.get(&id)
    }

    /// The amount stored for a project by the last matching round.
    pub fn matching_result(&self, project_id: u32) -> (r: Option<i128>)
        ensures
            r is None <==> !self@.matching_results.contains_key(project_id),
            r matches Some(a) ==> self@.matching_results[project_id] == a,
    {
        match self.matching_results.get(&project_id) {
            Some(a) => Some(*a),
            None => None,
        }
    }

    /// The (project, donor, contribution id) records, oldest first; a later
    /// record for the same pair replaces an earlier one.
    pub fn contribution_index_records(&self) -> (r: &Vec<(u32, Vec<u8>, u32)>)
        ensures
            index_map(r@) == self@.contribution_index,
    {
        &self.contribution_index
    }

    /// Sets the admin, the matching pool and the id counter, as read back
    /// from storage.
    pub fn restore_scalars(
        &mut self,
        admin: Option<Vec<u8>>,
        matching_pool: Option<i128>,
        contribution_count: Option<u32>,
    )
        ensures
            final(self)@ == (ProtocolView {
                admin: match admin {
                    Some(a) => Some(a@),
                    None => None,
                },
                matching_pool,
                contribution_count,
                ..old(self)@
            }),
    {
        self.admin = admin;
        self.matching_pool = matching_pool;
        self.contribution_count = contribution_count;
    }

    /// Stores a project read back from storage, under its id.
    pub fn restore_project(&mut self, project: Project)
        ensures
            final(self)@ == (ProtocolView {
                projects: old(self)@.projects.insert(project.id, project@),
                ..old(self)@
            }),
    {
        let ghost before = self.projects@;
        let ghost view = project@;
        let id = project.id;
        self.projects.insert(id, project);
        proof {
            assert(self.projects@.map_values(|p: Project| p@) =~= before.map_values(
                |p: Project| p@,
            ).insert(id, view));
        }
    }

    /// Stores a contribution read back from storage, under `id`.
    pub fn restore_contribution(&mut self, id: u32, contribution: Contribution)
        ensures
            final(self)@ == (ProtocolView {
                contributions: old(self)@.contributions.insert(id, contribution@),
                ..old(self)@
            }),
    {
        let ghost before = self.contributions@;
        let ghost view = contribution@;
        self.contributions.insert(id, contribution);
        proof {
            assert(self.contributions@.map_values(|c: Contribution| c@) =~= before.map_values(
                |c: Contribution| c@,
            ).insert(id, view));
        }
    }

    /// Records, as read back from storage, that `donor`'s latest
    /// contribution to `project_id` has id `id`.
    pub fn restore_index(&mut self, project_id: u32, donor: Vec<u8>, id: u32)
        ensures
            final(self)@ == (ProtocolView {
                contribution_index: old(self)@.contribution_index.insert((project_id, donor@), id),
                ..old(self)@
            }),
    {
        self.contribution_index.push((project_id, donor, id));
        proof {
            assert(self.contribution_index@.drop_last() == old(self).contribution_index@);
        }
    }

    /// Stores a project's matching amount read back from storage.
    pub fn restore_result(&mut self, project_id: u32, amount: i128)
        ensures
            final(self)@ == (ProtocolView {
                matching_results: old(self)@.matching_results.insert(project_id, amount),
                ..old(self)@
            }),
    {
        self.matching_results.insert(project_id, amount);
    }

}

// ---------------------------------------------------------------------------
// Laws of the contract.
// ---------------------------------------------------------------------------

/// Every stored project and contribution has an id between 1 and the shared
/// counter.
pub open spec fn ids_within_counter(v: ProtocolView) -> bool {
    &&& forall|id: u32| #[trigger] v.projects.contains_key(id) ==> 1 <= id <= count_or_zero(v)
    &&& forall|id: u32| #[trigger] v.contributions.contains_key(id) ==> 1 <= id <= count_or_zero(v)
}

/// A fresh contract holds no ids at all.
pub proof fn lemma_fresh_ids_within_counter(v: ProtocolView)
    requires
        v.contribution_count is None,
        v.projects == Map::<u32, ProjectView>::empty(),
        v.contributions == Map::<u32, ContributionView>::empty(),
    ensures
        ids_within_counter(v),
{
}

/// Registering a project uses an id that no project or contribution holds,
/// and keeps every id within the counter.
pub proof fn lemma_register_uses_fresh_id(v: ProtocolView, project: ProjectView)
    requires
        ids_within_counter(v),
        count_or_zero(v) < u32::MAX,
        project.id == count_or_zero(v) + 1,
    ensures
        !v.projects.contains_key(project.id),
        !v.contributions.contains_key(project.id),
        ids_within_counter(
            ProtocolView {
                contribution_count: Some(project.id),
                projects: v.projects.insert(project.id, project),
                ..v
            },
        ),
{
}

/// Recording a contribution uses an id that no project or contribution
/// holds, and keeps every id within the counter.
pub proof fn lemma_contribute_uses_fresh_id(
    v: ProtocolView,
    c: ContributionView,
    donor: Seq<u8>,
    id: u32,
)
    requires
        ids_within_counter(v),
        count_or_zero(v) < u32::MAX,
        id == count_or_zero(v) + 1,
    ensures
        !v.projects.contains_key(id),
        !v.contributions.contains_key(id),
        ids_within_counter(
            ProtocolView {
                contribution_count: Some(id),
                contributions: v.contributions.insert(id, c),
                contribution_index: v.contribution_index.insert((c.project_id, donor), id),
                ..v
            },
        ),
{
}

/// Recording a list of results leaves the entry of a project that is not
/// in the list as it was.
pub proof fn lemma_results_untouched(m: Map<u32, i128>, entries: Seq<(u32, i128)>, k: u32)
    requires
        forall|i: int| 0 <= i < entries.len() ==> (#[trigger] entries[i]).0 != k,
    ensures
        record_results(m, entries).contains_key(k) == m.contains_key(k),
        m.contains_key(k) ==> record_results(m, entries)[k] == m[k],
    decreases entries.len(),
{
    if entries.len() > 0 {
        let u = entries.drop_last();
        assert forall|i: int| 0 <= i < u.len() implies (#[trigger] u[i]).0 != k by {
            assert(u[i] == entries[i]);
        }
        lemma_results_untouched(m, u, k);
        assert(entries[entries.len() - 1].0 != k);
    }
}

/// After recording a list of results with distinct projects, each project
/// of the list maps to its amount.
pub proof fn lemma_results_recorded(m: Map<u32, i128>, entries: Seq<(u32, i128)>)
    requires
        forall|i: int, j: int| 0 <= i < j < entries.len() ==> entries[i].0 != entries[j].0,
    ensures
        forall|i: int|
            0 <= i < entries.len() ==> record_results(m, entries).contains_key(
                (#[trigger] entries[i]).0,
            ) && record_results(m, entries)[entries[i].0] == entries[i].1,
    decreases entries.len(),
{
    if entries.len() > 0 {
        let u = entries.drop_last();
        lemma_results_recorded(m, u);
        assert forall|i: int|
            0 <= i < entries.len() implies record_results(m, entries).contains_key(
            (#[trigger] entries[i]).0,
        ) && record_results(m, entries)[entries[i].0] == entries[i].1 by {
            if i < entries.len() - 1 {
                assert(u[i] == entries[i]);
                assert(entries[i].0 != entries[entries.len() - 1].0);
            }
        }
    }
}

/// After a matching round, the amount stored for each project of the round
/// is the amount the round computed for it.
pub proof fn lemma_round_results_readable(v: ProtocolView, r: Seq<(u32, i128)>)
    requires
        are_matching_results(
            r,
            gathered_contributions(v),
            pool_or_zero(v),
            MATCHING_POOL_PRECISION as int,
        ),
    ensures
        ({
            let after = ProtocolView {
                matching_results: record_results(v.matching_results, r),
                ..v
            };
            forall|i: int| 0 <= i < r.len() ==> result_or_zero(after, (#[trigger] r[i]).0) == r[i].1
        }),
{
    lemma_results_recorded(v.matching_results, r);
}

// ---------------------------------------------------------------------------
// Laws over sequences of calls.
// ---------------------------------------------------------------------------

proof fn lemma_run_step(v: ProtocolView, calls: Seq<Call>, k: int)
    requires
        0 <= k < calls.len(),
    ensures
        run(v, calls.take(k + 1)) == after_call(run(v, calls.take(k)), calls[k]),
{
    assert(calls.take(k + 1).drop_last() =~= calls.take(k));
}

/// No call lowers the shared id counter, and every call keeps each stored id
/// within it.
pub proof fn lemma_call_keeps_ids(v: ProtocolView, c: Call)
    requires
        ids_within_counter(v),
    ensures
        count_or_zero(after_call(v, c)) >= count_or_zero(v),
        ids_within_counter(after_call(v, c)),
{
    match c {
        Call::RegisterProject { owner, name, description } => {
            if count_or_zero(v) < u32::MAX {
                let id = (count_or_zero(v) + 1) as u32;
                lemma_register_uses_fresh_id(
                    v,
                    ProjectView { id, owner, name, description, match_multiplier: 0 },
                );
            }
        },
        Call::Contribute { donor, project_id, amount } => {
            if v.projects.contains_key(project_id) && count_or_zero(v) < u32::MAX {
                let id = (count_or_zero(v) + 1) as u32;
                lemma_contribute_uses_fresh_id(
                    v,
                    ContributionView { donor, project_id, amount },
                    donor,
                    id,
                );
            }
        },
        _ => {},
    }
}

/// Every stored id stays within the counter across any sequence of calls.
pub proof fn lemma_run_keeps_ids(v: ProtocolView, calls: Seq<Call>)
    requires
        ids_within_counter(v),
    ensures
        ids_within_counter(run(v, calls)),
        count_or_zero(run(v, calls)) >= count_or_zero(v),
    decreases calls.len(),
{
    if calls.len() > 0 {
        lemma_run_keeps_ids(v, calls.drop_last());
        lemma_call_keeps_ids(run(v, calls.drop_last()), calls.last());
    }
}

proof fn lemma_counter_monotone(v: ProtocolView, calls: Seq<Call>, a: int, b: int)
    requires
        ids_within_counter(v),
        0 <= a <= b <= calls.len(),
    ensures
        count_or_zero(run(v, calls.take(a))) <= count_or_zero(run(v, calls.take(b))),
    decreases b - a,
{
    if a < b {
        lemma_counter_monotone(v, calls, a, b - 1);
        lemma_run_step(v, calls, b - 1);
        lemma_run_keeps_ids(v, calls.take(b - 1));
        lemma_call_keeps_ids(run(v, calls.take(b - 1)), calls[b - 1]);
    }
}

/// The id that a project registration accepted in state `v` returns.
pub open spec fn next_id(v: ProtocolView) -> int {
    count_or_zero(v) + 1
}

/// A registration is accepted in state `v`.
pub open spec fn registration_accepted(v: ProtocolView, c: Call) -> bool {
    c is RegisterProject && count_or_zero(v) < u32::MAX
}

/// Project ids are at least 1 and strictly increasing: across any calls in
/// between, a later accepted registration returns a larger id than an
/// earlier one, and the id it uses holds no project yet.
pub proof fn lemma_project_ids_increase(v: ProtocolView, calls: Seq<Call>, j: int, k: int)
    requires
        ids_within_counter(v),
        0 <= j < k < calls.len(),
        registration_accepted(run(v, calls.take(j)), calls[j]),
        registration_accepted(run(v, calls.take(k)), calls[k]),
    ensures
        1 <= next_id(run(v, calls.take(j))) < next_id(run(v, calls.take(k))),
        !run(v, calls.take(k)).projects.contains_key(next_id(run(v, calls.take(k))) as u32),
{
    lemma_run_step(v, calls, j);
    lemma_counter_monotone(v, calls, j + 1, k);
    lemma_run_keeps_ids(v, calls.take(k));
}

/// A project, once stored, stays stored with the same record across any
/// sequence of calls.
pub proof fn lemma_project_stays(v: ProtocolView, calls: Seq<Call>, id: u32)
    requires
        ids_within_counter(v),
        v.projects.contains_key(id),
    ensures
        run(v, calls).projects.contains_key(id),
        run(v, calls).projects[id] == v.projects[id],
    decreases calls.len(),
{
    if calls.len() > 0 {
        let u = calls.drop_last();
        lemma_project_stays(v, u, id);
        lemma_run_keeps_ids(v, u);
    }
}

/// After `register_project` returns `id`, any further calls leave
/// `get_project(id)` giving the registered project.
pub proof fn lemma_registered_project_readable(
    v: ProtocolView,
    owner: Seq<u8>,
    name: Seq<char>,
    description: Seq<char>,
    calls: Seq<Call>,
)
    requires
        ids_within_counter(v),
        count_or_zero(v) < u32::MAX,
    ensures
        ({
            let id = (count_or_zero(v) + 1) as u32;
            let later = run(
                after_call(v, Call::RegisterProject { owner, name, description }),
                calls,
            );
            &&& later.projects.contains_key(id)
            &&& later.projects[id] == (ProjectView {
                id,
                owner,
                name,
                description,
                match_multiplier: 0,
            })
        }),
{
    let c = Call::RegisterProject { owner, name, description };
    lemma_call_keeps_ids(v, c);
    lemma_project_stays(after_call(v, c), calls, (count_or_zero(v) + 1) as u32);
}

/// Two maps that agree on ids `1..=n` gather the same contributions.
proof fn lemma_gathered_agree(m1: Map<u32, ContributionView>, m2: Map<u32, ContributionView>, n: int)
    requires
        n <= u32::MAX,
        forall|i: u32|
            1 <= i <= n ==> #[trigger] m1.contains_key(i) == m2.contains_key(i) && (m1.contains_key(i)
                ==> m1[i] == m2[i]),
    ensures
        gathered_upto(m1, n) == gathered_upto(m2, n),
    decreases n,
{
    if n > 0 {
        lemma_gathered_agree(m1, m2, n - 1);
        assert(1 <= n as u32 <= n);
    }
}

/// The contributions of the accepted `contribute` calls, in call order.
pub open spec fn contributions_made(v: ProtocolView, calls: Seq<Call>) -> Seq<ContributionView>
    decreases calls.len(),
{
    if calls.len() == 0 {
        Seq::empty()
    } else {
        let before = run(v, calls.drop_last());
        let earlier = contributions_made(v, calls.drop_last());
        match calls.last() {
            Call::Contribute { donor, project_id, amount } => {
                if before.projects.contains_key(project_id) && count_or_zero(before) < u32::MAX {
                    earlier.push(ContributionView { donor, project_id, amount })
                } else {
                    earlier
                }
            },
            _ => earlier,
        }
    }
}

/// One call adds to the contributions of the next matching round exactly
/// the contribution it records, if any.
pub proof fn lemma_call_gathers(v: ProtocolView, c: Call)
    requires
        ids_within_counter(v),
    ensures
        gathered_contributions(after_call(v, c)) == match c {
            Call::Contribute { donor, project_id, amount } => {
                if v.projects.contains_key(project_id) && count_or_zero(v) < u32::MAX {
                    gathered_contributions(v).push(ContributionView { donor, project_id, amount })
                } else {
                    gathered_contributions(v)
                }
            },
            _ => gathered_contributions(v),
        },
{
    let n = count_or_zero(v);
    match c {
        Call::RegisterProject { owner, name, description } => {
            if n < u32::MAX {
                assert(!v.contributions.contains_key((n + 1) as u32));
                assert(gathered_upto(v.contributions, n + 1) == gathered_upto(v.contributions, n));
            }
        },
        Call::Contribute { donor, project_id, amount } => {
            if v.projects.contains_key(project_id) && n < u32::MAX {
                let id = (n + 1) as u32;
                let cv = ContributionView { donor, project_id, amount };
                let m2 = v.contributions.insert(id, cv);
                lemma_gathered_agree(m2, v.contributions, n);
                assert(m2.contains_key(id) && m2[id] == cv);
                assert(gathered_upto(m2, n + 1) == gathered_upto(m2, n).push(cv));
            }
        },
        _ => {},
    }
}

/// Across any sequence of calls, the contributions that the next matching
/// round takes in are those it took in before, followed by the
/// contributions of the accepted `contribute` calls, in call order.
pub proof fn lemma_contributions_join_next_round(v: ProtocolView, calls: Seq<Call>)
    requires
        ids_within_counter(v),
    ensures
        gathered_contributions(run(v, calls)) == gathered_contributions(v) + contributions_made(v, calls),
    decreases calls.len(),
{
    if calls.len() == 0 {
        assert(gathered_contributions(v) + Seq::<ContributionView>::empty() =~= gathered_contributions(v));
    } else {
        let u = calls.drop_last();
        lemma_contributions_join_next_round(v, u);
        lemma_run_keeps_ids(v, u);
        lemma_call_gathers(run(v, u), calls.last());
        let g = gathered_contributions(v);
        let e = contributions_made(v, u);
        match calls.last() {
            Call::Contribute { donor, project_id, amount } => {
                let cv = ContributionView { donor, project_id, amount };
                assert((g + e).push(cv) =~= g + e.push(cv));
            },
            _ => {},
        }
    }
}

/// The map of the last accepted matching round among `calls`, if any.
pub open spec fn last_round(v: ProtocolView, calls: Seq<Call>) -> Option<Map<u32, i128>>
    decreases calls.len(),
{
    if calls.len() == 0 {
        None
    } else {
        let before = run(v, calls.drop_last());
        if calls.last() is CalculateMatching && round_succeeds(before) {
            Some(round_map(before))
        } else {
            last_round(v, calls.drop_last())
        }
    }
}

/// What `get_matching_result(pid)` answers after `calls`: the amount of the
/// last accepted matching round, 0 when it has none for `pid` or when no
/// round was accepted.
pub open spec fn expected_result(v: ProtocolView, calls: Seq<Call>, pid: u32) -> int {
    match last_round(v, calls) {
        Some(m) => if m.contains_key(pid) {
            m[pid] as int
        } else {
            0
        },
        None => 0,
    }
}

proof fn lemma_record_covered(m: Map<u32, i128>, e: Seq<(u32, i128)>)
    requires
        forall|i: int, j: int| 0 <= i < j < e.len() ==> e[i].0 != e[j].0,
        forall|k: u32| #[trigger] m.contains_key(k) ==> has_key(e, k),
    ensures
        record_results(m, e) == record_results(Map::empty(), e),
        forall|k: u32| #[trigger] record_results(m, e).contains_key(k) ==> has_key(e, k),
{
    let z = Map::<u32, i128>::empty();
    lemma_results_recorded(m, e);
    lemma_results_recorded(z, e);
    assert forall|k: u32| #[trigger] record_results(m, e).contains_key(k) == record_results(z, e).contains_key(k)
        && (record_results(m, e).contains_key(k) ==> record_results(m, e)[k] == record_results(z, e)[k])
        && (record_results(m, e).contains_key(k) ==> has_key(e, k)) by {
        if has_key(e, k) {
            let i = choose|i: int| 0 <= i < e.len() && e[i].0 == k;
            assert(record_results(m, e).contains_key(e[i].0));
            assert(record_results(z, e).contains_key(e[i].0));
        } else {
            assert forall|i: int| 0 <= i < e.len() implies (#[trigger] e[i]).0 != k by {
                if e[i].0 == k {
                    assert(has_key(e, k));
                }
            }
            lemma_results_untouched(m, e, k);
            lemma_results_untouched(z, e, k);
        }
    }
    assert(record_results(m, e) =~= record_results(z, e));
}

/// The stored matching results are those of the last accepted round, and
/// only name projects that received contributions.
proof fn lemma_results_follow_last_round(v: ProtocolView, calls: Seq<Call>)
    requires
        ids_within_counter(v),
        v.matching_results == Map::<u32, i128>::empty(),
    ensures
        run(v, calls).matching_results == match last_round(v, calls) {
            Some(m) => m,
            None => Map::<u32, i128>::empty(),
        },
        forall|pid: u32| #[trigger] run(v, calls).matching_results.contains_key(pid) ==> project_ids(
            gathered_contributions(run(v, calls)),
        ).contains(pid),
    decreases calls.len(),
{
    if calls.len() > 0 {
        let u = calls.drop_last();
        let before = run(v, u);
        lemma_results_follow_last_round(v, u);
        lemma_run_keeps_ids(v, u);
        lemma_call_gathers(before, calls.last());
        let g = gathered_contributions(before);
        let after = run(v, calls);
        assert(after == after_call(before, calls.last()));
        match calls.last() {
            Call::Contribute { donor, project_id, amount } => {
                let cv = ContributionView { donor, project_id, amount };
                assert forall|pid: u32| #[trigger] project_ids(g).contains(pid) implies project_ids(
                    g.push(cv),
                ).contains(pid) by {
                    assert(g.push(cv).drop_last() =~= g);
                    let ids = project_ids(g);
                    let j = choose|j: int| 0 <= j < ids.len() && ids[j] == pid;
                    assert(ids.push(cv.project_id)[j] == pid);
                }
            },
            Call::CalculateMatching => {
                if round_succeeds(before) {
                    let e = results_by_arrival(g, pool_or_zero(before), MATCHING_POOL_PRECISION as int);
                    let ids = project_ids(g);
                    lemma_project_ids_distinct(g);
                    assert forall|i: int, j: int| 0 <= i < j < e.len() implies e[i].0 != e[j].0 by {
                        assert(ids[i] != ids[j]);
                    }
                    assert forall|k: u32| #[trigger] before.matching_results.contains_key(k) implies has_key(e, k) by {
                        assert(ids.contains(k));
                        let j = choose|j: int| 0 <= j < ids.len() && ids[j] == k;
                        assert(e[j].0 == k);
                    }
                    lemma_record_covered(before.matching_results, e);
                    assert forall|pid: u32| #[trigger] after.matching_results.contains_key(pid) implies ids.contains(pid) by {
                        assert(has_key(e, pid));
                        let j = choose|j: int| 0 <= j < e.len() && e[j].0 == pid;
                        assert(ids[j] == pid);
                    }
                }
            },
            _ => {},
        }
    }
}

/// From a contract with no stored results, `get_matching_result(pid)` after
/// any sequence of calls answers the amount of the last accepted matching
/// round for `pid`, or 0 when that round has none for it or no round was
/// accepted.
pub proof fn lemma_matching_results_readable(v: ProtocolView, calls: Seq<Call>, pid: u32)
    requires
        ids_within_counter(v),
        v.matching_results == Map::<u32, i128>::empty(),
    ensures
        result_or_zero(run(v, calls), pid) == expected_result(v, calls, pid),
{
    lemma_results_follow_last_round(v, calls);
}

/// The map of a round holds, for each project, what the round's returned
/// results hold for it: `round_map(v)[pid]` is `results.get(pid)`, absent
/// exactly when that is `None`.
pub proof fn lemma_round_map_is_results(v: ProtocolView, r: Seq<(u32, i128)>, pid: u32)
    requires
        are_matching_results(
            r,
            gathered_contributions(v),
            pool_or_zero(v),
            MATCHING_POOL_PRECISION as int,
        ),
    ensures
        round_map(v).contains_key(pid) == (lookup(r, pid) is Some),
        round_map(v).contains_key(pid) ==> lookup(r, pid) == Some(round_map(v)[pid]),
{
    let g = gathered_contributions(v);
    let pool = pool_or_zero(v);
    let p = MATCHING_POOL_PRECISION as int;
    lemma_sorted_records_like_arrival(Map::empty(), g, pool, p, r);
    crate::quadratic_funding::lemma_results_lookup(g, pool, p, r, pid);
    crate::quadratic_funding::lemma_project_ids_contains(g, pid);
    if has_key(r, pid) {
        let i = choose|i: int| 0 <= i < r.len() && r[i].0 == pid;
        assert forall|a: int, b: int| 0 <= a < b < r.len() implies r[a].0 != r[b].0 by {
            assert(r[a].0 < r[b].0);
        }
        lemma_results_recorded(Map::empty(), r);
        assert(record_results(Map::empty(), r).contains_key(r[i].0));
        assert(project_ids(g).contains(r[i].0));
    } else {
        assert forall|i: int| 0 <= i < r.len() implies (#[trigger] r[i]).0 != pid by {
            if r[i].0 == pid {
                assert(has_key(r, pid));
            }
        }
        lemma_results_untouched(Map::empty(), r, pid);
        if project_ids(g).contains(pid) {
            assert(has_key(r, pid));
        }
    }
}

} // verus!
