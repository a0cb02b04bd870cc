//! A fleet of agents that elect a leader through Raft, replicate state
//! changes through it, and track their own events with vector clocks.

use vstd::prelude::*;
use crate::strmap::StrMap;
use crate::naming::{decimal, indexed_name, lemma_decimal_injective};
use crate::vector_clock::{VectorClock, clock_at};
use crate::consensus::raft::{RaftNode, RaftView, NodeRole, rafts_view, fresh_raft, strs_view, election_run,
    replicate_run, simulate_election, replicate_entry, unvoted, law_first_election};
use crate::consistency::{DataStore, ConsistencyModel, merge_replicas, best_replica};

verus! {

/// The role of an agent, mirroring its Raft node.
#[derive(Debug, Clone, Copy, PartialEq, Eq, Structural)]
pub enum AgentRole {
    Leader,
    Follower,
    Candidate,
}

/// An agent: its key-value state, its vector clock and its role.
#[derive(Debug, Clone)]
pub struct Agent {
    pub id: String,
    pub state: StrMap<String>,
    pub vector_clock: VectorClock,
    pub role: AgentRole,
}

#[verifier::ext_equal]
pub struct AgentView {
    pub id: Seq<char>,
    pub state: Map<Seq<char>, Seq<char>>,
    pub clock: Map<Seq<char>, u64>,
    pub role: AgentRole,
}

impl View for Agent {
    type V = AgentView;

    open spec fn view(&self) -> AgentView {
        AgentView {
            id: self.id@,
            state: self.state@.map_values(|s: String| s@),
            clock: self.vector_clock@,
            role: self.role,
        }
    }
}

pub open spec fn agents_view(v: Seq<Agent>) -> Seq<AgentView> {
    v.map_values(|a: Agent| a@)
}

/// An agent after setting `key` to `value`: one more event on its own clock.
pub open spec fn agent_set(a: AgentView, key: Seq<char>, value: Seq<char>) -> AgentView {
    AgentView {
        state: a.state.insert(key, value),
        clock: a.clock.insert(a.id, (clock_at(a.clock, a.id) + 1) as u64),
        ..a
    }
}

/// The agent role that matches a Raft role.
pub open spec fn role_of(r: NodeRole) -> AgentRole {
    match r {
        NodeRole::Leader => AgentRole::Leader,
        NodeRole::Candidate => AgentRole::Candidate,
        NodeRole::Follower => AgentRole::Follower,
    }
}

impl Agent {
    /// A follower with empty state and clock.
    pub fn new(id: String) -> (a: Self)
        ensures
            a@ == (AgentView { id: id@, state: Map::empty(), clock: Map::empty(), role: AgentRole::Follower }),
    {
        let a = Agent { id, state: StrMap::new(), vector_clock: VectorClock::new(), role: AgentRole::Follower };
        proof {
            assert(a@.state =~= Map::<Seq<char>, Seq<char>>::empty());
        }
        a
    }

    /// Sets `key` to `value`, counting one event on the agent's own clock.
    pub fn set(&mut self, key: &str, value: &str)
        requires
            clock_at(old(self)@.clock, old(self)@.id) < u64::MAX,
        ensures
            final(self)@ == agent_set(old(self)@, key@, value@),
    {
        self.vector_clock.increment(&self.id);
        self.state.insert(key.to_owned(), value.to_owned());
        proof {
            assert(self@.state =~= old(self)@.state.insert(key@, value@));
        }
    }

    /// The value of `key`, if set.
    pub fn get(&self, key: &str) -> (r: Option<&str>)
        ensures
            match r {
                Some(s) => self@.state.contains_key(key@) && self@.state[key@] == s@,
                None => !self@.state.contains_key(key@),
            },
    {
        match self.state.get(key) {
            Some(s) => Some(s.as_str()),
            None => None,
        }
    }
}

/// The name of agent `i`: `agent_{i}`.
pub open spec fn agent_name(i: nat) -> Seq<char> {
    seq!['a', 'g', 'e', 'n', 't', '_'] + decimal(i)
}

/// The names of a fleet of `size` agents, in order.
pub open spec fn fleet_names(size: nat) -> Seq<Seq<char>> {
    Seq::new(size, |k: int| agent_name(k as nat))
}

/// The names in `ids` other than `me`, in order.
pub open spec fn others(ids: Seq<Seq<char>>, me: Seq<char>) -> Seq<Seq<char>>
    decreases ids.len(),
{
    if ids.len() == 0 {
        Seq::empty()
    } else {
        let rest = others(ids.drop_last(), me);
        if ids.last() == me { rest } else { rest.push(ids.last()) }
    }
}

/// The first Raft node that is leader, if any.
pub open spec fn first_raft_leader(nodes: Seq<RaftView>) -> Option<int>
    decreases nodes.len(),
{
    if nodes.len() == 0 {
        None
    } else {
        match first_raft_leader(nodes.drop_last()) {
            Some(i) => Some(i),
            None => if nodes.last().role == NodeRole::Leader { Some(nodes.len() - 1) } else { None },
        }
    }
}

/// The first agent that is leader, if any.
pub open spec fn first_agent_leader(agents: Seq<AgentView>) -> Option<int>
    decreases agents.len(),
{
    if agents.len() == 0 {
        None
    } else {
        match first_agent_leader(agents.drop_last()) {
            Some(i) => Some(i),
            None => if agents.last().role == AgentRole::Leader { Some(agents.len() - 1) } else { None },
        }
    }
}

pub proof fn lemma_first_raft_leader(nodes: Seq<RaftView>)
    ensures
        first_raft_leader(nodes) matches Some(i) ==> 0 <= i < nodes.len() && nodes[i].role == NodeRole::Leader,
    decreases nodes.len(),
{
    if nodes.len() > 0 {
        lemma_first_raft_leader(nodes.drop_last());
    }
}

pub proof fn lemma_first_agent_leader(agents: Seq<AgentView>)
    ensures
        first_agent_leader(agents) matches Some(i) ==> 0 <= i < agents.len() && agents[i].role == AgentRole::Leader,
    decreases agents.len(),
{
    if agents.len() > 0 {
        lemma_first_agent_leader(agents.drop_last());
    }
}

/// Agents with Raft nodes and causal data stores, one of each per member.
#[derive(Debug, Clone)]
pub struct AgentFleet {
    pub agents: Vec<Agent>,
    pub raft_nodes: Vec<RaftNode>,
    pub data_stores: Vec<DataStore>,
}

/// A follower with an empty id, empty state and an empty clock.
fn agent_placeholder() -> (a: Agent)
    ensures
        a@ == (AgentView { id: Seq::empty(), state: Map::empty(), clock: Map::empty(), role: AgentRole::Follower }),
{
    Agent::new(String::new())
}

impl AgentFleet {
    /// `size` agents named `agent_0`, `agent_1`, ..., each with a fresh Raft
    /// node whose peers are all the others, and an empty causal store.
    pub fn new(size: usize) -> (f: Self)
        ensures
            f.agents@.len() == size,
            f.raft_nodes@.len() == size,
            f.data_stores@.len() == size,
            forall|i: int| 0 <= i < size ==> #[trigger] f.agents@[i]@ == (AgentView {
                id: agent_name(i as nat),
                state: Map::empty(),
                clock: Map::empty(),
                role: AgentRole::Follower,
            }),
            forall|i: int| 0 <= i < size ==> #[trigger] f.raft_nodes@[i]@ == fresh_raft(
                agent_name(i as nat),
                others(fleet_names(size as nat), agent_name(i as nat)),
            ),
            forall|i: int| #![trigger f.data_stores@[i]] 0 <= i < size ==> f.data_stores@[i].data@ == Map::<Seq<char>, crate::consistency::VersionedValue>::empty()
                && f.data_stores@[i].consistency == ConsistencyModel::Causal,
    {
        let ghost names = fleet_names(size as nat);
        let mut ids: Vec<String> = Vec::new();
        let mut i: usize = 0;
        while i < size
            invariant
                i <= size,
                names == fleet_names(size as nat),
                strs_view(ids@) == names.take(i as int),
            decreases size - i,
        {
            let name = indexed_name("agent_", i);
            proof {
                reveal_strlit("agent_");
                assert(name@ =~= agent_name(i as nat));
            }
            let ghost before = ids@;
            ids.push(name);
            proof {
                assert(strs_view(ids@) =~= strs_view(before).push(names[i as int]));
                assert(names.take(i as int + 1) =~= names.take(i as int).push(names[i as int]));
            }
            i = i + 1;
        }
        proof {
            assert(names.take(i as int) =~= names);
        }
        let mut agents: Vec<Agent> = Vec::new();
        let mut raft_nodes: Vec<RaftNode> = Vec::new();
        let mut data_stores: Vec<DataStore> = Vec::new();
        let mut i: usize = 0;
        while i < size
            invariant
                i <= size,
                names == fleet_names(size as nat),
                ids@.len() == size,
                strs_view(ids@) == names,
                agents@.len() == i,
                raft_nodes@.len() == i,
                data_stores@.len() == i,
                forall|k: int| 0 <= k < i ==> #[trigger] agents@[k]@ == (AgentView {
                    id: agent_name(k as nat),
                    state: Map::empty(),
                    clock: Map::empty(),
                    role: AgentRole::Follower,
                }),
                forall|k: int| 0 <= k < i ==> #[trigger] raft_nodes@[k]@ == fresh_raft(agent_name(k as nat), others(names, agent_name(k as nat))),
                forall|k: int| #![trigger data_stores@[k]] 0 <= k < i ==> data_stores@[k].data@ == Map::<Seq<char>, crate::consistency::VersionedValue>::empty()
                    && data_stores@[k].consistency == ConsistencyModel::Causal,
            decreases size - i,
        {
            proof {
                assert(strs_view(ids@)[i as int] == names[i as int]);
            }
            agents.push(Agent::new(ids[i].clone()));
            let mut peers: Vec<String> = Vec::new();
            let mut j: usize = 0;
            while j < ids.len()
                invariant
                    j <= ids@.len(),
                    i < ids@.len(),
                    strs_view(ids@) == names,
                    strs_view(peers@) == others(names.take(j as int), names[i as int]),
                decreases ids@.len() - j,
            {
                proof {
                    assert(names.take(j as int + 1).drop_last() =~= names.take(j as int));
                    assert(strs_view(ids@)[j as int] == names[j as int]);
                    assert(strs_view(ids@)[i as int] == names[i as int]);
                }
                if ids[j] != ids[i] {
                    let ghost before = peers@;
                    peers.push(ids[j].clone());
                    proof {
                        assert(strs_view(peers@) =~= strs_view(before).push(names[j as int]));
                    }
                }
                j = j + 1;
            }
            proof {
                assert(names.take(j as int) =~= names);
            }
            raft_nodes.push(RaftNode::new(ids[i].clone(), peers));
            data_stores.push(DataStore::new(ConsistencyModel::Causal));
            i = i + 1;
        }
        AgentFleet { agents, raft_nodes, data_stores }
    }

    /// Runs a Raft election with `candidate_idx` as candidate and gives each
    /// agent the role of its Raft node.
    pub fn elect_leader(&mut self, candidate_idx: usize)
        requires
            candidate_idx < old(self).raft_nodes@.len(),
            old(self).raft_nodes@[candidate_idx as int].current_term < u64::MAX,
            old(self).agents@.len() >= old(self).raft_nodes@.len(),
        ensures
            final(self).data_stores@ == old(self).data_stores@,
            final(self).raft_nodes@.len() == old(self).raft_nodes@.len(),
            rafts_view(final(self).raft_nodes@) == election_run(rafts_view(old(self).raft_nodes@), candidate_idx as int),
            final(self).agents@.len() == old(self).agents@.len(),
            forall|i: int| 0 <= i < old(self).agents@.len() ==> #[trigger] final(self).agents@[i]@ == (
                if i < old(self).raft_nodes@.len() {
                    AgentView { role: role_of(final(self).raft_nodes@[i].role), ..old(self).agents@[i]@ }
                } else {
                    old(self).agents@[i]@
                }),
    {
        simulate_election(&mut self.raft_nodes, candidate_idx);
        let ghost a0 = self.agents@;
        let ghost r1 = self.raft_nodes@;
        let mut i: usize = 0;
        while i < self.raft_nodes.len()
            invariant
                i <= self.raft_nodes@.len(),
                self.raft_nodes@ == r1,
                self.data_stores@ == old(self).data_stores@,
                a0 == old(self).agents@,
                self.raft_nodes@.len() <= a0.len(),
                self.agents@.len() == a0.len(),
                forall|k: int| 0 <= k < i ==> #[trigger] self.agents@[k]@ == (AgentView { role: role_of(self.raft_nodes@[k].role), ..a0[k]@ }),
                forall|k: int| i <= k < a0.len() ==> #[trigger] self.agents@[k] == a0[k],
            decreases self.raft_nodes@.len() - i,
        {
            let role = match self.raft_nodes[i].role {
                NodeRole::Leader => AgentRole::Leader,
                NodeRole::Candidate => AgentRole::Candidate,
                NodeRole::Follower => AgentRole::Follower,
            };
            let ghost before = self.agents@;
            let mut slot = agent_placeholder();
            self.agents.set_and_swap(i, &mut slot);
            slot.role = role;
            self.agents.set_and_swap(i, &mut slot);
            proof {
                assert forall|k: int| 0 <= k < self.agents@.len() && k != i implies self.agents@[k] == before[k] by {}
            }
            i = i + 1;
        }
    }

    /// Replicates `key=value` through the first Raft leader and sets the key
    /// at every agent; false, with nothing changed, when there is no leader.
    pub fn propose_state(&mut self, key: &str, value: &str) -> (ok: bool)
        requires
            forall|i: int| 0 <= i < old(self).agents@.len() ==>
                clock_at(#[trigger] old(self).agents@[i]@.clock, old(self).agents@[i]@.id) < u64::MAX,
        ensures
            final(self).data_stores@ == old(self).data_stores@,
            ok == (first_raft_leader(rafts_view(old(self).raft_nodes@)) is Some),
            !ok ==> final(self).raft_nodes@ == old(self).raft_nodes@ && final(self).agents@ == old(self).agents@,
            first_raft_leader(rafts_view(old(self).raft_nodes@)) matches Some(l) ==> {
                &&& rafts_view(final(self).raft_nodes@) == replicate_run(rafts_view(old(self).raft_nodes@), l,
                    key@ + seq!['='] + value@)
                &&& final(self).agents@.len() == old(self).agents@.len()
                &&& forall|i: int| 0 <= i < old(self).agents@.len() ==>
                    #[trigger] final(self).agents@[i]@ == agent_set(old(self).agents@[i]@, key@, value@)
            },
    {
        let ghost rv = rafts_view(self.raft_nodes@);
        let mut leader: Option<usize> = None;
        let mut i: usize = 0;
        while i < self.raft_nodes.len() && leader.is_none()
            invariant
                i <= self.raft_nodes@.len(),
                rv == rafts_view(self.raft_nodes@),
                leader is None ==> first_raft_leader(rv.take(i as int)) is None,
                leader matches Some(l) ==> first_raft_leader(rv) == Some(l as int) && l < rv.len(),
            decreases self.raft_nodes@.len() - i,
        {
            proof {
                assert(rv.take(i as int + 1).drop_last() =~= rv.take(i as int));
            }
            if self.raft_nodes[i].role == NodeRole::Leader {
                leader = Some(i);
                proof {
                    lemma_first_leader_prefix(rv, i as int + 1);
                }
            }
            i = i + 1;
        }
        proof {
            if leader is None {
                assert(rv.take(rv.len() as int) =~= rv);
            }
        }
        match leader {
            Some(li) => {
                let mut command = key.to_owned();
                command.append("=");
                command.append(value);
                proof {
                    reveal_strlit("=");
                    assert(command@ =~= key@ + seq!['='] + value@);
                }
                replicate_entry(&mut self.raft_nodes, li, command.as_str());
                let ghost a0 = self.agents@;
                let ghost r1 = self.raft_nodes@;
                let mut k: usize = 0;
                while k < self.agents.len()
                    invariant
                        k <= self.agents@.len(),
                        self.raft_nodes@ == r1,
                        self.data_stores@ == old(self).data_stores@,
                        self.agents@.len() == a0.len(),
                        a0 == old(self).agents@,
                        forall|j: int| 0 <= j < a0.len() ==> clock_at(#[trigger] a0[j]@.clock, a0[j]@.id) < u64::MAX,
                        forall|j: int| 0 <= j < k ==> #[trigger] self.agents@[j]@ == agent_set(a0[j]@, key@, value@),
                        forall|j: int| k <= j < a0.len() ==> #[trigger] self.agents@[j] == a0[j],
                    decreases self.agents@.len() - k,
                {
                    let ghost before = self.agents@;
                    let mut slot = agent_placeholder();
                    self.agents.set_and_swap(k, &mut slot);
                    slot.set(key, value);
                    self.agents.set_and_swap(k, &mut slot);
                    proof {
                        assert forall|j: int| 0 <= j < self.agents@.len() && j != k implies self.agents@[j] == before[j] by {}
                    }
                    k = k + 1;
                }
                true
            },
            None => false,
        }
    }

    /// Copies the newest version of `key` among the agents' stores to all of them.
    pub fn synchronize(&mut self, key: &str)
        ensures
            final(self).agents@ == old(self).agents@,
            final(self).raft_nodes@ == old(self).raft_nodes@,
            final(self).data_stores@.len() == old(self).data_stores@.len(),
            best_replica(old(self).data_stores@, key@) is None ==> final(self).data_stores@ == old(self).data_stores@,
            best_replica(old(self).data_stores@, key@) matches Some(b) ==> forall|i: int| 0 <= i < old(self).data_stores@.len() ==> {
                &&& #[trigger] final(self).data_stores@[i].consistency == old(self).data_stores@[i].consistency
                &&& final(self).data_stores@[i].data@ == old(self).data_stores@[i].data@.insert(key@, final(self).data_stores@[i].data@[key@])
                &&& final(self).data_stores@[i].data@[key@].same_as(old(self).data_stores@[b].data@[key@])
            },
    {
        merge_replicas(&mut self.data_stores, key);
    }

    /// The first agent that is leader, if any.
    pub fn leader(&self) -> (r: Option<&Agent>)
        ensures
            match first_agent_leader(agents_view(self.agents@)) {
                Some(i) => r == Some(&self.agents@[i]),
                None => r is None,
            },
    {
        let ghost av = agents_view(self.agents@);
        let mut i: usize = 0;
        while i < self.agents.len()
            invariant
                i <= self.agents@.len(),
                av == agents_view(self.agents@),
                first_agent_leader(av.take(i as int)) is None,
            decreases self.agents@.len() - i,
        {
            proof {
                assert(av.take(i as int + 1).drop_last() =~= av.take(i as int));
            }
            if self.agents[i].role == AgentRole::Leader {
                proof {
                    lemma_first_agent_prefix(av, i as int + 1);
                }
                return Some(&self.agents[i]);
            }
            i = i + 1;
        }
        proof {
            assert(av.take(i as int) =~= av);
        }
        None
    }
}

/// The first leader of a prefix that has one is the first leader overall.
pub proof fn lemma_first_leader_prefix(nodes: Seq<RaftView>, k: int)
    requires
        0 <= k <= nodes.len(),
        first_raft_leader(nodes.take(k)) is Some,
    ensures
        first_raft_leader(nodes) == first_raft_leader(nodes.take(k)),
    decreases nodes.len() - k,
{
    if k < nodes.len() {
        assert(nodes.drop_last().take(k) =~= nodes.take(k));
        lemma_first_leader_prefix(nodes.drop_last(), k);
    } else {
        assert(nodes.take(k) =~= nodes);
    }
}

/// The first leader of a prefix that has one is the first leader overall.
pub proof fn lemma_first_agent_prefix(agents: Seq<AgentView>, k: int)
    requires
        0 <= k <= agents.len(),
        first_agent_leader(agents.take(k)) is Some,
    ensures
        first_agent_leader(agents) == first_agent_leader(agents.take(k)),
    decreases agents.len() - k,
{
    if k < agents.len() {
        assert(agents.drop_last().take(k) =~= agents.take(k));
        lemma_first_agent_prefix(agents.drop_last(), k);
    } else {
        assert(agents.take(k) =~= agents);
    }
}

/// Different agents have different names.
proof fn lemma_agent_name_injective(i: nat, j: nat)
    requires
        agent_name(i) == agent_name(j),
    ensures
        i == j,
{
    let p = seq!['a', 'g', 'e', 'n', 't', '_'];
    assert((p + decimal(i)).skip(6) =~= decimal(i));
    assert((p + decimal(j)).skip(6) =~= decimal(j));
    lemma_decimal_injective(i, j);
}

/// A name absent from `ids` leaves them all.
proof fn lemma_others_absent(ids: Seq<Seq<char>>, me: Seq<char>)
    requires
        !ids.contains(me),
    ensures
        others(ids, me).len() == ids.len(),
    decreases ids.len(),
{
    if ids.len() > 0 {
        let d = ids.drop_last();
        assert(!d.contains(me)) by {
            if d.contains(me) {
                let k = choose|k: int| 0 <= k < d.len() && d[k] == me;
                assert(ids[k] == d[k]);
            }
        }
        lemma_others_absent(d, me);
        assert(ids[ids.len() - 1] == ids.last());
    }
}

/// A name that occurs once among distinct names leaves the others.
proof fn lemma_others_len(ids: Seq<Seq<char>>, me: Seq<char>, i: int)
    requires
        0 <= i < ids.len(),
        ids[i] == me,
        forall|a: int, b: int| 0 <= a < ids.len() && 0 <= b < ids.len() && a != b ==> #[trigger] ids[a] != #[trigger] ids[b],
    ensures
        others(ids, me).len() == ids.len() - 1,
    decreases ids.len(),
{
    let d = ids.drop_last();
    if i == ids.len() - 1 {
        assert(!d.contains(me)) by {
            if d.contains(me) {
                let k = choose|k: int| 0 <= k < d.len() && d[k] == me;
                assert(ids[k] == d[k]);
            }
        }
        lemma_others_absent(d, me);
    } else {
        assert(d[i] == ids[i]);
        assert forall|a: int, b: int| 0 <= a < d.len() && 0 <= b < d.len() && a != b implies #[trigger] d[a] != #[trigger] d[b] by {
            assert(d[a] == ids[a]);
            assert(d[b] == ids[b]);
        }
        lemma_others_len(d, me, i);
        assert(ids.last() != me) by {
            assert(ids[ids.len() - 1] != ids[i]);
        }
    }
}

/// A new fleet elects its candidate: in a fleet of at least two agents as
/// `AgentFleet::new` makes it, an election run by any member makes that
/// member the Raft leader of term 1 and every other member a follower, so
/// the fleet then has exactly one leader.
pub proof fn law_fleet_elects_candidate(rafts: Seq<RaftView>, c: int)
    requires
        rafts.len() >= 2,
        0 <= c < rafts.len(),
        forall|i: int| 0 <= i < rafts.len() ==> #[trigger] rafts[i] == fresh_raft(
            agent_name(i as nat),
            others(fleet_names(rafts.len()), agent_name(i as nat)),
        ),
    ensures
        election_run(rafts, c)[c].role == NodeRole::Leader,
        forall|j: int| 0 <= j < rafts.len() && j != c ==> (#[trigger] election_run(rafts, c)[j]).role == NodeRole::Follower,
{
    let names = fleet_names(rafts.len());
    assert forall|a: int, b: int| 0 <= a < names.len() && 0 <= b < names.len() && a != b implies #[trigger] names[a] != #[trigger] names[b] by {
        if names[a] == names[b] {
            lemma_agent_name_injective(a as nat, b as nat);
        }
    }
    assert(rafts[c] == fresh_raft(agent_name(c as nat), others(names, agent_name(c as nat))));
    lemma_others_len(names, agent_name(c as nat), c);
    assert forall|j: int| 0 <= j < rafts.len() implies #[trigger] unvoted(rafts[j]) by {
        assert(rafts[j] == fresh_raft(agent_name(j as nat), others(names, agent_name(j as nat))));
    }
    assert forall|a: int, b: int| 0 <= a < rafts.len() && 0 <= b < rafts.len() && a != b implies
        #[trigger] rafts[a].id != #[trigger] rafts[b].id by {
        assert(rafts[a] == fresh_raft(agent_name(a as nat), others(names, agent_name(a as nat))));
        assert(rafts[b] == fresh_raft(agent_name(b as nat), others(names, agent_name(b as nat))));
        assert(names[a] != names[b]);
    }
    law_first_election(rafts, c);
}

/// Get after set: right after an agent sets `key` to `value`, it reads
/// `value` there, every other key reads as before, and its own counter has
/// grown by one.
pub proof fn law_agent_get_after_set(a: AgentView, key: Seq<char>, value: Seq<char>, other: Seq<char>)
    requires
        clock_at(a.clock, a.id) < u64::MAX,
    ensures
        agent_set(a, key, value).state.contains_key(key),
        agent_set(a, key, value).state[key] == value,
        other != key ==> (agent_set(a, key, value).state.contains_key(other) == a.state.contains_key(other)),
        other != key && a.state.contains_key(other) ==> agent_set(a, key, value).state[other] == a.state[other],
        clock_at(agent_set(a, key, value).clock, a.id) == clock_at(a.clock, a.id) + 1,
{
}

} // verus!
