//! Who runs when: the nodes of a plan run as tasks, at most as many at a
//! time as the limit allows, each only after all that it needs is done, and
//! none is started once one has failed. Requests for one store key share
//! one materialization.
//!
//! The types here start no task. The caller asks which node to start,
//! starts it, and reports how it ended.

use vstd::prelude::*;
use vstd::string::*;
use crate::store::{find_key, key_position, lemma_push_distinct, lemma_remove_distinct};

verus! {

/// How far a node of the plan has come.
#[derive(Debug, Clone, Copy, PartialEq, Eq, Structural)]
pub enum NodeState {
    /// It was not started.
    Pending,
    /// It was started and has not ended.
    Running,
    /// It ended well.
    Done,
    /// It failed.
    Failed,
}

/// How many of the first `upto` of `states` are running.
pub open spec fn count_running(states: Seq<NodeState>, upto: int) -> int
    decreases upto,
{
    if upto <= 0 {
        0
    } else if states[upto - 1] == NodeState::Running {
        count_running(states, upto - 1) + 1
    } else {
        count_running(states, upto - 1)
    }
}

/// Changing one state changes the count of running nodes by that node.
pub proof fn lemma_count_update(states: Seq<NodeState>, v: int, to: NodeState, upto: int)
    requires
        0 <= v < states.len(),
        0 <= upto <= states.len(),
    ensures
        count_running(states.update(v, to), upto) == count_running(states, upto) + (if v < upto {
            (if to == NodeState::Running {
                1int
            } else {
                0int
            }) - (if states[v] == NodeState::Running {
                1int
            } else {
                0int
            })
        } else {
            0int
        }),
        0 <= count_running(states, upto) <= upto,
    decreases upto,
{
    if upto > 0 {
        lemma_count_update(states, v, to, upto - 1);
    }
}

/// The nodes of a plan, what each needs, and how far each has come.
pub struct Scheduler {
    deps: Vec<Vec<usize>>,
    states: Vec<NodeState>,
    limit: usize,
    running: usize,
    failed: Option<usize>,
    stopped: bool,
}

impl Scheduler {
    /// How far each node has come.
    pub closed spec fn states(&self) -> Seq<NodeState> {
        self.states@
    }

    /// What each node needs, as places in the plan.
    pub closed spec fn needs(&self) -> Seq<Seq<usize>> {
        Seq::new(self.deps@.len(), |i: int| self.deps@[i]@)
    }

    /// How many nodes may run at a time.
    pub closed spec fn limit(&self) -> int {
        self.limit as int
    }

    /// The first node of the plan that failed, if any did.
    pub closed spec fn failure(&self) -> Option<usize> {
        self.failed
    }

    /// Whether the scheduler was told to start nothing more.
    pub closed spec fn stopped(&self) -> bool {
        self.stopped
    }

    /// How many nodes the scheduler takes to be running.
    pub closed spec fn tally(&self) -> int {
        self.running as int
    }

    /// Whether the scheduler is sound: the nodes that a node needs are
    /// nodes of the plan, and no more nodes run than the limit allows.
    pub open spec fn wf(&self) -> bool {
        &&& self.needs().len() == self.states().len()
        &&& self.tally() == count_running(self.states(), self.states().len() as int)
        &&& self.limit() >= 1
        &&& forall|i: int, j: int|
            0 <= i < self.needs().len() && 0 <= j < self.needs()[i].len() ==> (
            #[trigger] self.needs()[i][j]) < self.states().len()
        &&& count_running(self.states(), self.states().len() as int) <= self.limit()
        &&& self.failure() is Some ==> self.failure()->0 < self.states().len()
    }

    /// Whether all that the node `v` needs is done.
    pub open spec fn ready(&self, v: int) -> bool {
        forall|j: int|
            0 <= j < self.needs()[v].len() ==> self.states()[(
            #[trigger] self.needs()[v][j]) as int] == NodeState::Done
    }

    /// Whether the node `v` may be started: nothing failed, nobody said
    /// stop, the limit is not reached, the node was not started, and all
    /// that it needs is done.
    pub open spec fn can_start(&self, v: int) -> bool {
        &&& 0 <= v < self.states().len()
        &&& self.failure() is None
        &&& !self.stopped()
        &&& count_running(self.states(), self.states().len() as int) < self.limit()
        &&& self.states()[v] == NodeState::Pending
        &&& self.ready(v)
    }

    /// A scheduler for nodes that need `deps`, of which at most `limit`
    /// run at a time. There is none for a limit of 0, nor where a node
    /// needs what is no node of the plan.
    pub fn new(deps: Vec<Vec<usize>>, limit: usize) -> (res: Option<Scheduler>)
        ensures
            res is Some <==> limit >= 1 && forall|i: int, j: int|
                0 <= i < deps.len() && 0 <= j < deps@[i].len() ==> (#[trigger] deps@[i]@[j])
                    < deps.len(),
            res is Some ==> res->0.wf() && res->0.limit() == limit && res->0.failure() is None
                && !res->0.stopped()
                && res->0.needs() == Seq::new(deps@.len(), |i: int| deps@[i]@)
                && res->0.states() == Seq::new(deps@.len(), |i: int| NodeState::Pending),
    {
        if limit == 0 {
            return None;
        }
        let n = deps.len();
        let mut states: Vec<NodeState> = Vec::new();
        let mut i: usize = 0;
        while i < n
            invariant
                i <= n,
                n == deps.len(),
                states.len() == i,
                forall|x: int| 0 <= x < i ==> states@[x] == NodeState::Pending,
                forall|x: int, j: int|
                    0 <= x < i && 0 <= j < deps@[x].len() ==> (#[trigger] deps@[x]@[j]) < n,
            decreases n - i,
        {
            let needs = &deps[i];
            let mut j: usize = 0;
            while j < needs.len()
                invariant
                    j <= needs.len(),
                    i < n,
                    n == deps.len(),
                    needs == deps@[i as int],
                    forall|y: int| 0 <= y < j ==> (#[trigger] needs@[y]) < n,
                decreases needs.len() - j,
            {
                if needs[j] >= n {
                    return None;
                }
                j = j + 1;
            }
            states.push(NodeState::Pending);
            i = i + 1;
        }
        proof {
            assert(states@ =~= Seq::new(deps@.len(), |i: int| NodeState::Pending));
            lemma_none_running(states@, n as int);
        }
        Some(Scheduler { deps, states, limit, running: 0, failed: None, stopped: false })
    }

    /// How many nodes run.
    pub fn running(&self) -> (n: usize)
        requires
            self.wf(),
        ensures
            n == count_running(self.states(), self.states().len() as int),
            n <= self.limit(),
    {
        self.running
    }

    /// How many nodes the plan has.
    pub fn len(&self) -> (n: usize)
        ensures
            n == self.states().len(),
    {
        self.states.len()
    }

    /// How far the node `v` has come.
    pub fn state(&self, v: usize) -> (state: Option<NodeState>)
        ensures
            v < self.states().len() ==> state == Some(self.states()[v as int]),
            v >= self.states().len() ==> state is None,
    {
        if v < self.states.len() {
            Some(self.states[v])
        } else {
            None
        }
    }

    /// The first node of the plan that failed, if any did.
    pub fn first_failure(&self) -> (v: Option<usize>)
        ensures
            v == self.failure(),
    {
        self.failed
    }

    /// Whether all that the node `v` needs is done.
    fn is_ready(&self, v: usize) -> (b: bool)
        requires
            self.wf(),
            v < self.states().len(),
        ensures
            b == self.ready(v as int),
    {
        let needs = &self.deps[v];
        let mut j: usize = 0;
        while j < needs.len()
            invariant
                j <= needs.len(),
                self.wf(),
                v < self.states@.len(),
                needs == self.deps@[v as int],
                forall|y: int|
                    0 <= y < j ==> self.states@[(#[trigger] needs@[y]) as int] == NodeState::Done,
            decreases needs.len() - j,
        {
            assert(self.needs()[v as int][j as int] == needs@[j as int]);
            if self.states[needs[j]] != NodeState::Done {
                return false;
            }
            j = j + 1;
        }
        assert forall|y: int| 0 <= y < self.needs()[v as int].len() implies self.states()[(
        #[trigger] self.needs()[v as int][y]) as int] == NodeState::Done by {
            assert(self.needs()[v as int][y] == needs@[y]);
        }
        true
    }

    /// Starts the first node of the plan that may be started, and says
    /// which it is; or starts none, where none may be started.
    pub fn next(&mut self) -> (started: Option<usize>)
        requires
            old(self).wf(),
        ensures
            final(self).wf(),
            final(self).needs() == old(self).needs(),
            final(self).limit() == old(self).limit(),
            final(self).failure() == old(self).failure(),
            final(self).stopped() == old(self).stopped(),
            started is Some ==> old(self).can_start(started->0 as int) && (forall|u: int|
                0 <= u < started->0 ==> !old(self).can_start(u)) && final(self).states() == old(
                self,
            ).states().update(started->0 as int, NodeState::Running),
            started is None ==> final(self).states() == old(self).states() && forall|u: int|
                !old(self).can_start(u),
    {
        if self.failed.is_some() || self.stopped || self.running >= self.limit {
            return None;
        }
        let n = self.states.len();
        let mut v: usize = 0;
        while v < n
            invariant
                v <= n,
                n == self.states@.len(),
                self.wf(),
                *self == *old(self),
                self.failed is None,
                !self.stopped,
                self.running < self.limit,
                forall|u: int| 0 <= u < v ==> !self.can_start(u),
            decreases n - v,
        {
            if self.states[v] == NodeState::Pending && self.is_ready(v) {
                let ghost before = self.states@;
                self.states.set(v, NodeState::Running);
                self.running = self.running + 1;
                proof {
                    lemma_count_update(before, v as int, NodeState::Running, n as int);
                    assert(self.needs() == old(self).needs());
                }
                return Some(v);
            }
            v = v + 1;
        }
        None
    }

    /// Takes note that the node `v` ended: well, or not. Says whether the
    /// node was running; the end of a node that was not running is ignored.
    pub fn finish(&mut self, v: usize, ok: bool) -> (was_running: bool)
        requires
            old(self).wf(),
        ensures
            final(self).wf(),
            final(self).needs() == old(self).needs(),
            final(self).limit() == old(self).limit(),
            final(self).stopped() == old(self).stopped(),
            was_running == (v < old(self).states().len() && old(self).states()[v as int]
                == NodeState::Running),
            !was_running ==> final(self).states() == old(self).states() && final(self).failure()
                == old(self).failure(),
            was_running ==> final(self).states() == old(self).states().update(
                v as int,
                if ok {
                    NodeState::Done
                } else {
                    NodeState::Failed
                },
            ),
            was_running && ok ==> final(self).failure() == old(self).failure(),
            was_running && !ok ==> final(self).failure() == Some(
                if old(self).failure() is Some && old(self).failure()->0 < v {
                    old(self).failure()->0
                } else {
                    v
                },
            ),
    {
        if v >= self.states.len() || self.states[v] != NodeState::Running {
            return false;
        }
        let ghost before = self.states@;
        let n = self.states.len();
        let to = if ok {
            NodeState::Done
        } else {
            NodeState::Failed
        };
        proof {
            lemma_count_update(before, v as int, to, n as int);
            lemma_count_update(before.update(v as int, to), v as int, to, n as int);
        }
        self.states.set(v, to);
        self.running = self.running - 1;
        if !ok {
            let first = match self.failed {
                Some(u) => if u < v {
                    u
                } else {
                    v
                },
                None => v,
            };
            self.failed = Some(first);
        }
        proof {
            assert(self.needs() == old(self).needs());
        }
        true
    }

    /// Says stop: no node is started from now on. The nodes that run go on
    /// to their end.
    pub fn stop(&mut self)
        requires
            old(self).wf(),
        ensures
            final(self).wf(),
            final(self).stopped(),
            final(self).needs() == old(self).needs(),
            final(self).limit() == old(self).limit(),
            final(self).states() == old(self).states(),
            final(self).failure() == old(self).failure(),
            forall|u: int| !final(self).can_start(u),
    {
        self.stopped = true;
        proof {
            assert(self.needs() == old(self).needs());
        }
    }

    /// Whether nothing runs and nothing can be started: every node is done,
    /// or a node failed or somebody said stop and the nodes that ran have
    /// ended.
    pub fn is_drained(&self) -> (b: bool)
        requires
            self.wf(),
        ensures
            b == (count_running(self.states(), self.states().len() as int) == 0 && forall|u: int|
                !self.can_start(u)),
    {
        if self.running > 0 {
            return false;
        }
        if self.failed.is_some() || self.stopped {
            return true;
        }
        let n = self.states.len();
        let mut v: usize = 0;
        while v < n
            invariant
                v <= n,
                n == self.states@.len(),
                self.wf(),
                self.failed is None,
                !self.stopped,
                self.running == 0,
                forall|u: int| 0 <= u < v ==> !self.can_start(u),
            decreases n - v,
        {
            if self.states[v] == NodeState::Pending && self.is_ready(v) {
                assert(self.can_start(v as int));
                return false;
            }
            v = v + 1;
        }
        true
    }
}

/// Where no node was started, none runs.
pub proof fn lemma_none_running(states: Seq<NodeState>, upto: int)
    requires
        0 <= upto <= states.len(),
        forall|x: int| 0 <= x < states.len() ==> states[x] == NodeState::Pending,
    ensures
        count_running(states, upto) == 0,
    decreases upto,
{
    if upto > 0 {
        lemma_none_running(states, upto - 1);
    }
}

/// What a request for a store key is told.
#[derive(Debug, Clone, Copy, PartialEq, Eq, Structural)]
pub enum Flight {
    /// Nobody materializes the key: the one who asked does.
    Lead,
    /// Somebody materializes the key: the one who asked waits for the end.
    Follow,
}

/// What a request for `key` is told where the keys `flying` are being
/// materialized, and which keys are being materialized after it.
pub open spec fn request_spec(flying: Seq<Seq<char>>, key: Seq<char>) -> (Seq<Seq<char>>, Flight) {
    if flying.contains(key) {
        (flying, Flight::Follow)
    } else {
        (flying.push(key), Flight::Lead)
    }
}

/// How many of `k` requests for `key` in a row are told to lead.
pub open spec fn leads(flying: Seq<Seq<char>>, key: Seq<char>, k: nat) -> nat
    decreases k,
{
    if k == 0 {
        0
    } else {
        let (next, told) = request_spec(flying, key);
        (if told == Flight::Lead {
            1nat
        } else {
            0nat
        }) + leads(next, key, (k - 1) as nat)
    }
}

/// Of any number of requests for a key that is being materialized, none is
/// told to lead.
pub proof fn lemma_followers(flying: Seq<Seq<char>>, key: Seq<char>, k: nat)
    requires
        flying.contains(key),
    ensures
        leads(flying, key, k) == 0,
    decreases k,
{
    if k > 0 {
        lemma_followers(flying, key, (k - 1) as nat);
    }
}

/// Of one or more requests for a key in a row, with no end of its
/// materialization in between, exactly one is told to lead, where nobody
/// materialized the key before.
pub proof fn lemma_single_flight(flying: Seq<Seq<char>>, key: Seq<char>, k: nat)
    requires
        k >= 1,
        !flying.contains(key),
    ensures
        leads(flying, key, k) == 1,
{
    let next = flying.push(key);
    assert(next[flying.len() as int] == key);
    lemma_followers(next, key, (k - 1) as nat);
}

/// The store keys that are being materialized.
pub struct SingleFlight {
    flying: Vec<String>,
}

impl SingleFlight {
    /// The keys that are being materialized.
    pub closed spec fn view(&self) -> Seq<Seq<char>> {
        self.flying.deep_view()
    }

    /// Whether no key is listed twice.
    pub open spec fn wf(&self) -> bool {
        self@.no_duplicates()
    }

    /// Nothing is being materialized.
    pub fn new() -> (flights: SingleFlight)
        ensures
            flights.wf(),
            flights@ == Seq::<Seq<char>>::empty(),
    {
        let flights = SingleFlight { flying: Vec::new() };
        assert(flights@ =~= Seq::<Seq<char>>::empty());
        flights
    }

    /// Asks for the keg `key`: the first to ask leads and materializes it,
    /// and who asks before that ended follows.
    pub fn request(&mut self, key: &str) -> (told: Flight)
        requires
            old(self).wf(),
        ensures
            final(self).wf(),
            (final(self)@, told) == request_spec(old(self)@, key@),
    {
        if find_key(&self.flying, key) < self.flying.len() {
            return Flight::Follow;
        }
        let ghost before = self@;
        self.flying.push(String::from_str(key));
        proof {
            assert(self@ =~= before.push(key@));
            lemma_push_distinct(before, key@);
        }
        Flight::Lead
    }

    /// Takes note that the materialization of `key` ended. Says whether it
    /// was under way.
    pub fn complete(&mut self, key: &str) -> (was_flying: bool)
        requires
            old(self).wf(),
        ensures
            final(self).wf(),
            was_flying == old(self)@.contains(key@),
            was_flying ==> final(self)@ == old(self)@.remove(key_position(old(self)@, key@)),
            !was_flying ==> final(self)@ == old(self)@,
            !final(self)@.contains(key@),
    {
        let at = find_key(&self.flying, key);
        if at == self.flying.len() {
            return false;
        }
        let ghost before = self@;
        self.flying.remove(at);
        proof {
            assert(self@ =~= before.remove(at as int));
            lemma_remove_distinct(before, at as int);
        }
        true
    }
}

} // verus!
