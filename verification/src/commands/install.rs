//! The `install` command.

use vstd::prelude::*;
use vstd::string::*;
use crate::errors::Error;
use crate::formula::deps::ResolveMode;
use crate::formula::resolve::{
    as_places, is_plan, plan_needs, resolve_closure, setting, waits, PlannedNode,
};
use crate::formula::types::{Formula, Platform};
use crate::scheduler::{
    lemma_followers, lemma_single_flight, leads, request_spec, Flight, NodeState, Scheduler,
    SingleFlight,
};
use crate::store::Store;

verus! {

/// What an install command works through: the plan, and the scheduler that
/// says which formula of the plan is worked on next.
pub struct InstallRun {
    pub plan: Vec<PlannedNode>,
    pub scheduler: Scheduler,
}

/// Prepares the installation of the formulas `formulas`: resolves them to a
/// plan, and sets up a scheduler in which every formula of the plan waits
/// for what it needs, and in which at most `concurrency` formulas are
/// worked on at a time.
///
/// What cannot be resolved fails as `resolve_closure` says; a concurrency
/// of 0 fails as well.
pub fn execute(
    index: &Vec<Formula>,
    formulas: &Vec<String>,
    mode: ResolveMode,
    platform: &Platform,
    concurrency: usize,
) -> (res: Result<InstallRun, Error>)
    ensures
        res is Ok ==> concurrency >= 1 && is_plan(
            setting(index@, *platform, mode),
            formulas.deep_view(),
            res->Ok_0.plan@,
        ) && res->Ok_0.scheduler.wf() && res->Ok_0.scheduler.limit() == concurrency
            && res->Ok_0.scheduler.failure() is None && !res->Ok_0.scheduler.stopped()
            && res->Ok_0.scheduler.states() == Seq::new(
            res->Ok_0.plan@.len(),
            |i: int| NodeState::Pending,
        ) && res->Ok_0.scheduler.needs().len() == res->Ok_0.plan@.len() && forall|b: int|
            0 <= b < res->Ok_0.plan@.len() ==> as_places(
                #[trigger] res->Ok_0.scheduler.needs()[b],
            ) == waits(
                setting(index@, *platform, mode),
                res->Ok_0.plan@,
                res->Ok_0.plan@[b].formula as int,
                setting(index@, *platform, mode).dep_names(
                    res->Ok_0.plan@[b].formula as int,
                ).len() as int,
            ),
        res is Ok <==> concurrency >= 1 && !setting(index@, *platform, mode).missing(
            formulas.deep_view(),
        ) && !setting(index@, *platform, mode).blocked(formulas.deep_view()) && !setting(
            index@,
            *platform,
            mode,
        ).cyclic(formulas.deep_view()),
        concurrency == 0 && !setting(index@, *platform, mode).missing(formulas.deep_view())
            && !setting(index@, *platform, mode).blocked(formulas.deep_view()) && !setting(
            index@,
            *platform,
            mode,
        ).cyclic(formulas.deep_view()) ==> res is Err && res->Err_0.is_execution_error(
            "concurrency must be at least 1"@,
        ),
{
    let plan = match resolve_closure(index, formulas, mode, platform) {
        Ok(plan) => plan,
        Err(e) => {
            return Err(e);
        },
    };
    let needs = plan_needs(index, &plan, mode, platform);
    match Scheduler::new(needs, concurrency) {
        Some(scheduler) => Ok(InstallRun { plan, scheduler }),
        None => Err(
            Error::ExecutionError { message: String::from_str("concurrency must be at least 1") },
        ),
    }
}

/// What a request for a keg is told.
#[derive(Debug, Clone, Copy, PartialEq, Eq, Structural)]
pub enum KegRequest {
    /// The store holds the keg: there is nothing to do.
    Present,
    /// Nobody materializes the keg: the one who asked does, into the staged
    /// keg.
    Lead,
    /// Somebody materializes the keg: the one who asked waits for the end,
    /// and takes its outcome.
    Follow,
}

/// Asks for the keg `key`. Where the store holds it, nothing is to do. Else
/// the first to ask leads, and the keg counts as staged; who asks before the
/// materialization ended follows.
pub fn request_keg(store: &mut Store, flights: &mut SingleFlight, key: &str) -> (told: KegRequest)
    requires
        old(store).wf(),
        old(flights).wf(),
    ensures
        final(store).wf(),
        final(flights).wf(),
        final(store).kegs() == old(store).kegs(),
        final(store).records() == old(store).records(),
        old(store).kegs().contains(key@) ==> told == KegRequest::Present
            && final(flights)@ == old(flights)@
            && final(store).staged() == old(store).staged(),
        !old(store).kegs().contains(key@) ==> (final(flights)@, told.flight()) == (
            request_spec(old(flights)@, key@).0,
            Some(request_spec(old(flights)@, key@).1),
        ),
        told == KegRequest::Lead ==> final(store).staged().contains(key@),
        told == KegRequest::Follow ==> final(store).staged() == old(store).staged(),
{
    if store.contains(key) {
        return KegRequest::Present;
    }
    match flights.request(key) {
        Flight::Lead => {
            let ghost staged = store.staged();
            store.stage(key);
            proof {
                if !staged.contains(key@) {
                    assert(store.staged()[staged.len() as int] == key@);
                }
            }
            KegRequest::Lead
        },
        Flight::Follow => KegRequest::Follow,
    }
}

impl KegRequest {
    /// What the request was told about the materialization, where the store
    /// did not hold the keg.
    pub open spec fn flight(self) -> Option<Flight> {
        match self {
            KegRequest::Present => None,
            KegRequest::Lead => Some(Flight::Lead),
            KegRequest::Follow => Some(Flight::Follow),
        }
    }
}

/// Takes note that the materialization of the keg `key` ended: well, so
/// that the staged keg is committed, or not, so that the store holds no
/// such keg. From then on a request for the keg leads again, unless the
/// store holds it.
pub fn finish_keg(store: &mut Store, flights: &mut SingleFlight, key: &str, ok: bool) -> (res:
    Result<(), Error>)
    requires
        old(store).wf(),
        old(flights).wf(),
    ensures
        final(store).wf(),
        final(flights).wf(),
        !final(flights)@.contains(key@),
        final(store).records() == old(store).records(),
        !ok ==> res is Ok && final(store).kegs() == old(store).kegs() && final(store).staged()
            == old(store).staged(),
        ok && old(store).staged().contains(key@) ==> res is Ok && final(store).kegs().contains(
            key@,
        ),
        ok && !old(store).staged().contains(key@) ==> res is Err
            && final(store).kegs() == old(store).kegs(),
        !old(store).kegs().contains(key@) && old(store).staged().contains(key@)
            ==> (final(store).kegs().contains(key@) <==> ok),
{
    flights.complete(key);
    if !ok {
        return Ok(());
    }
    let ghost kegs = store.kegs();
    let res = store.commit(key);
    proof {
        if res is Ok && !kegs.contains(key@) {
            assert(store.kegs()[kegs.len() as int] == key@);
        }
    }
    res
}

/// Of one or more requests in a row for a keg that the store does not hold
/// and that nobody materializes, exactly one leads: the keg is unpacked
/// once. All others follow, and none of them leads while the first is at
/// work.
pub proof fn lemma_unpacked_once(flying: Seq<Seq<char>>, key: Seq<char>, k: nat)
    requires
        k >= 1,
        !flying.contains(key),
    ensures
        leads(flying, key, k) == 1,
        request_spec(flying, key).1 == Flight::Lead,
        leads(request_spec(flying, key).0, key, (k - 1) as nat) == 0,
{
    lemma_single_flight(flying, key, k);
    let next = flying.push(key);
    assert(next[flying.len() as int] == key);
    lemma_followers(next, key, (k - 1) as nat);
}

} // verus!
