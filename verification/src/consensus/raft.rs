//! Raft: leader election by votes and log replication by append requests.

use vstd::prelude::*;
use crate::strmap::StrMap;

verus! {

/// The role of a Raft node.
#[derive(Debug, Clone, Copy, PartialEq, Eq, Hash, Structural)]
pub enum NodeRole {
    Follower,
    Candidate,
    Leader,
}

/// One entry of the replicated log.
#[derive(Debug, Clone)]
pub struct LogEntry {
    pub term: u64,
    pub command: String,
}

pub struct LogEntryView {
    pub term: u64,
    pub command: Seq<char>,
}

impl View for LogEntry {
    type V = LogEntryView;

    open spec fn view(&self) -> LogEntryView {
        LogEntryView { term: self.term, command: self.command@ }
    }
}

pub open spec fn log_view(v: Seq<LogEntry>) -> Seq<LogEntryView> {
    v.map_values(|e: LogEntry| e@)
}

pub open spec fn strs_view(v: Seq<String>) -> Seq<Seq<char>> {
    v.map_values(|s: String| s@)
}

pub open spec fn opt_str_view(o: Option<String>) -> Option<Seq<char>> {
    match o {
        Some(s) => Some(s@),
        None => None,
    }
}

impl LogEntry {
    /// A copy of this entry.
    pub fn duplicate(&self) -> (r: LogEntry)
        ensures
            r@ == self@,
    {
        LogEntry { term: self.term, command: self.command.clone() }
    }
}

/// A copy of a list of entries.
pub fn copy_entries(v: &Vec<LogEntry>) -> (r: Vec<LogEntry>)
    ensures
        log_view(r@) == log_view(v@),
{
    let mut r: Vec<LogEntry> = Vec::new();
    let mut i: usize = 0;
    while i < v.len()
        invariant
            i <= v@.len(),
            log_view(r@) == log_view(v@.take(i as int)),
        decreases v@.len() - i,
    {
        let ghost before = r@;
        r.push(v[i].duplicate());
        proof {
            assert(log_view(r@) =~= log_view(before).push(v@[i as int]@));
            assert(log_view(v@.take(i as int + 1)) =~= log_view(v@.take(i as int)).push(v@[i as int]@));
        }
        i = i + 1;
    }
    proof {
        assert(v@.take(i as int) =~= v@);
    }
    r
}

/// The messages of the protocol.
#[derive(Debug, Clone)]
pub enum RaftMessage {
    RequestVote { term: u64, candidate_id: String, last_log_index: usize, last_log_term: u64 },
    VoteResponse { term: u64, vote_granted: bool, voter_id: String },
    AppendEntries {
        term: u64,
        leader_id: String,
        prev_log_index: usize,
        prev_log_term: u64,
        entries: Vec<LogEntry>,
        leader_commit: usize,
    },
    AppendResponse { term: u64, success: bool, match_index: usize, responder_id: String },
}

pub enum RaftMessageView {
    RequestVote { term: u64, candidate_id: Seq<char>, last_log_index: usize, last_log_term: u64 },
    VoteResponse { term: u64, vote_granted: bool, voter_id: Seq<char> },
    AppendEntries {
        term: u64,
        leader_id: Seq<char>,
        prev_log_index: usize,
        prev_log_term: u64,
        entries: Seq<LogEntryView>,
        leader_commit: usize,
    },
    AppendResponse { term: u64, success: bool, match_index: usize, responder_id: Seq<char> },
}

impl View for RaftMessage {
    type V = RaftMessageView;

    open spec fn view(&self) -> RaftMessageView {
        match *self {
            RaftMessage::RequestVote { term, candidate_id, last_log_index, last_log_term } =>
                RaftMessageView::RequestVote { term, candidate_id: candidate_id@, last_log_index, last_log_term },
            RaftMessage::VoteResponse { term, vote_granted, voter_id } =>
                RaftMessageView::VoteResponse { term, vote_granted, voter_id: voter_id@ },
            RaftMessage::AppendEntries { term, leader_id, prev_log_index, prev_log_term, entries, leader_commit } =>
                RaftMessageView::AppendEntries {
                    term,
                    leader_id: leader_id@,
                    prev_log_index,
                    prev_log_term,
                    entries: log_view(entries@),
                    leader_commit,
                },
            RaftMessage::AppendResponse { term, success, match_index, responder_id } =>
                RaftMessageView::AppendResponse { term, success, match_index, responder_id: responder_id@ },
        }
    }
}

/// A Raft node: its term, vote, role, log and applied state.
#[derive(Debug, Clone)]
pub struct RaftNode {
    pub id: String,
    pub current_term: u64,
    pub voted_for: Option<String>,
    pub role: NodeRole,
    pub log: Vec<LogEntry>,
    pub commit_index: usize,
    pub last_applied: usize,
    pub votes_received: Vec<String>,
    pub next_index: StrMap<usize>,
    pub match_index: StrMap<usize>,
    pub peers: Vec<String>,
    pub state_machine: Vec<String>,
}

#[verifier::ext_equal]
pub struct RaftView {
    pub id: Seq<char>,
    pub current_term: u64,
    pub voted_for: Option<Seq<char>>,
    pub role: NodeRole,
    pub log: Seq<LogEntryView>,
    pub commit_index: usize,
    pub last_applied: usize,
    pub votes_received: Seq<Seq<char>>,
    pub next_index: Map<Seq<char>, usize>,
    pub match_index: Map<Seq<char>, usize>,
    pub peers: Seq<Seq<char>>,
    pub state_machine: Seq<Seq<char>>,
}

impl View for RaftNode {
    type V = RaftView;

    open spec fn view(&self) -> RaftView {
        RaftView {
            id: self.id@,
            current_term: self.current_term,
            voted_for: opt_str_view(self.voted_for),
            role: self.role,
            log: log_view(self.log@),
            commit_index: self.commit_index,
            last_applied: self.last_applied,
            votes_received: strs_view(self.votes_received@),
            next_index: self.next_index@,
            match_index: self.match_index@,
            peers: strs_view(self.peers@),
            state_machine: strs_view(self.state_machine@),
        }
    }
}

pub open spec fn rafts_view(v: Seq<RaftNode>) -> Seq<RaftView> {
    v.map_values(|n: RaftNode| n@)
}

/// The index the node reports as its last: one below the log's length, or 0.
pub open spec fn last_index(log: Seq<LogEntryView>) -> int {
    if log.len() == 0 { 0 } else { log.len() - 1 }
}

/// The term of the last entry, or 0 for an empty log.
pub open spec fn last_term(log: Seq<LogEntryView>) -> u64 {
    if log.len() == 0 { 0 } else { log.last().term }
}

/// A node becoming a candidate for the next term, voting for itself, and its vote request.
pub open spec fn raft_start_election(n: RaftView) -> (RaftView, RaftMessageView) {
    let t = (n.current_term + 1) as u64;
    (
        RaftView {
            current_term: t,
            role: NodeRole::Candidate,
            voted_for: Some(n.id),
            votes_received: seq![n.id],
            ..n
        },
        RaftMessageView::RequestVote {
            term: t,
            candidate_id: n.id,
            last_log_index: last_index(n.log) as usize,
            last_log_term: last_term(n.log),
        },
    )
}

/// Whether a node grants its vote: the request's term is not behind, the node
/// has not voted for another candidate, and the candidate's log is at least as
/// up to date as its own.
pub open spec fn vote_granted(n: RaftView, term: u64, candidate: Seq<char>, lli: usize, llt: u64) -> bool {
    &&& term >= n.current_term
    &&& (n.voted_for is None || n.voted_for == Some(candidate))
    &&& (llt > last_term(n.log) || (llt == last_term(n.log) && lli >= last_index(n.log)))
}

/// A node answering a vote request.
pub open spec fn raft_on_request_vote(n: RaftView, term: u64, candidate: Seq<char>, lli: usize, llt: u64) -> (RaftView, RaftMessageView) {
    if vote_granted(n, term, candidate, lli, llt) {
        let n2 = if term > n.current_term {
            RaftView { current_term: term, role: NodeRole::Follower, voted_for: Some(candidate), ..n }
        } else {
            RaftView { voted_for: Some(candidate), ..n }
        };
        (n2, RaftMessageView::VoteResponse { term: n2.current_term, vote_granted: true, voter_id: n.id })
    } else {
        (n, RaftMessageView::VoteResponse { term: n.current_term, vote_granted: false, voter_id: n.id })
    }
}

/// The number of votes that makes a candidate leader: a majority of the
/// cluster of its peers and itself.
pub open spec fn raft_quorum(peers: int) -> int {
    (peers + 1) / 2 + 1
}

/// A node counting a vote response.
pub open spec fn raft_on_vote_response(n: RaftView, m: RaftMessageView) -> RaftView {
    match m {
        RaftMessageView::VoteResponse { term, vote_granted, voter_id } => {
            if term > n.current_term {
                RaftView { current_term: term, role: NodeRole::Follower, ..n }
            } else if vote_granted && n.role == NodeRole::Candidate {
                let votes = if n.votes_received.contains(voter_id) {
                    n.votes_received
                } else {
                    n.votes_received.push(voter_id)
                };
                let role = if votes.len() >= raft_quorum(n.peers.len() as int) { NodeRole::Leader } else { n.role };
                RaftView { votes_received: votes, role, ..n }
            } else {
                n
            }
        },
        _ => n,
    }
}


/// A log after the entry `e` is placed at `idx`: a conflicting entry there
/// (another term) is dropped with all that follow it; an entry of the same
/// term is kept; past the end, `e` is appended.
pub open spec fn merge_entry(log: Seq<LogEntryView>, idx: int, e: LogEntryView) -> Seq<LogEntryView> {
    if idx < log.len() {
        if log[idx].term != e.term { log.take(idx).push(e) } else { log }
    } else {
        log.push(e)
    }
}

/// A log after the entries are placed, in order, from position `prev` on.
pub open spec fn merge_entries(log: Seq<LogEntryView>, prev: int, es: Seq<LogEntryView>) -> Seq<LogEntryView>
    decreases es.len(),
{
    if es.len() == 0 {
        log
    } else {
        merge_entry(merge_entries(log, prev, es.drop_last()), prev + es.len() - 1, es.last())
    }
}

/// The consistency check of an append: nothing precedes it, or the log has an
/// entry at position `prev` (counting from 1) with term `prev_term`.
pub open spec fn prev_matches(log: Seq<LogEntryView>, prev: usize, prev_term: u64) -> bool {
    prev == 0 || (prev <= log.len() && log[prev - 1].term == prev_term)
}

/// The commands of the entries at positions `from` up to `to` (exclusive)
/// that the log holds, in order.
pub open spec fn applied_commands(log: Seq<LogEntryView>, from: int, to: int) -> Seq<Seq<char>>
    decreases to - from,
{
    if to <= from {
        Seq::empty()
    } else {
        let before = applied_commands(log, from, to - 1);
        if to - 1 < log.len() { before.push(log[to - 1].command) } else { before }
    }
}

/// A node after an append request: when the consistency check holds, the
/// entries are placed, the commit index follows the leader's (up to the log's
/// length), and the newly committed commands are applied.
pub open spec fn raft_append(n: RaftView, es: Seq<LogEntryView>, prev: usize, prev_term: u64, leader_commit: usize) -> (RaftView, bool) {
    if !prev_matches(n.log, prev, prev_term) {
        (n, false)
    } else {
        let log = merge_entries(n.log, prev as int, es);
        let commit = if leader_commit > n.commit_index {
            if (leader_commit as int) < log.len() { leader_commit } else { log.len() as usize }
        } else {
            n.commit_index
        };
        let applied = if n.last_applied < commit { commit } else { n.last_applied };
        (
            RaftView {
                log,
                commit_index: commit,
                last_applied: applied,
                state_machine: n.state_machine + applied_commands(log, n.last_applied as int, commit as int),
                ..n
            },
            true,
        )
    }
}

/// A leader appending `command` at its current term, and the request that
/// carries it; a node that is not leader does nothing.
pub open spec fn raft_leader_append(n: RaftView, command: Seq<char>) -> (RaftView, Option<RaftMessageView>) {
    if n.role != NodeRole::Leader {
        (n, None)
    } else {
        let e = LogEntryView { term: n.current_term, command };
        (
            RaftView { log: n.log.push(e), ..n },
            Some(RaftMessageView::AppendEntries {
                term: n.current_term,
                leader_id: n.id,
                prev_log_index: n.log.len() as usize,
                prev_log_term: last_term(n.log),
                entries: seq![e],
                leader_commit: n.commit_index,
            }),
        )
    }
}

/// Whether `s` occurs in `v`.
pub fn contains_string(v: &Vec<String>, s: &String) -> (b: bool)
    ensures
        b == strs_view(v@).contains(s@),
{
    let mut i: usize = 0;
    while i < v.len()
        invariant
            i <= v@.len(),
            forall|j: int| 0 <= j < i ==> v@[j]@ != s@,
        decreases v@.len() - i,
    {
        if v[i] == *s {
            proof {
                assert(strs_view(v@)[i as int] == s@);
            }
            return true;
        }
        i = i + 1;
    }
    proof {
        if strs_view(v@).contains(s@) {
            let j = choose|j: int| 0 <= j < strs_view(v@).len() && strs_view(v@)[j] == s@;
            assert(v@[j]@ == s@);
        }
    }
    false
}

/// The peers, each with the index 0.
pub open spec fn zero_index(peers: Seq<Seq<char>>) -> Map<Seq<char>, usize> {
    Map::new(|k: Seq<char>| peers.contains(k), |k: Seq<char>| 0usize)
}

fn zero_index_map(peers: &Vec<String>) -> (m: StrMap<usize>)
    ensures
        m@ == zero_index(strs_view(peers@)),
{
    let mut m: StrMap<usize> = StrMap::new();
    let mut i: usize = 0;
    while i < peers.len()
        invariant
            i <= peers@.len(),
            m@ == zero_index(strs_view(peers@.take(i as int))),
        decreases peers@.len() - i,
    {
        let ghost before = m@;
        m.insert(peers[i].clone(), 0);
        proof {
            let a = strs_view(peers@.take(i as int));
            let x = peers@[i as int]@;
            let b = strs_view(peers@.take(i as int + 1));
            assert(b =~= a.push(x));
            assert forall|k: Seq<char>| b.contains(k) == (a.contains(k) || k == x) by {
                if b.contains(k) {
                    let j = choose|j: int| 0 <= j < b.len() && b[j] == k;
                    if j < a.len() {
                        assert(a[j] == k);
                    }
                }
                if a.contains(k) {
                    let j = choose|j: int| 0 <= j < a.len() && a[j] == k;
                    assert(b[j] == k);
                }
                if k == x {
                    assert(b[a.len() as int] == x);
                }
            }
            assert(m@ =~= zero_index(b));
        }
        i = i + 1;
    }
    proof {
        assert(peers@.take(i as int) =~= peers@);
    }
    m
}

/// A follower at term 0 with an empty log, knowing its peers.
pub open spec fn fresh_raft(id: Seq<char>, peers: Seq<Seq<char>>) -> RaftView {
    RaftView {
        id,
        current_term: 0,
        voted_for: None,
        role: NodeRole::Follower,
        log: Seq::empty(),
        commit_index: 0,
        last_applied: 0,
        votes_received: Seq::empty(),
        next_index: zero_index(peers),
        match_index: zero_index(peers),
        peers,
        state_machine: Seq::empty(),
    }
}

impl RaftNode {
    /// A follower at term 0 with an empty log, knowing its peers.
    pub fn new(id: String, peers: Vec<String>) -> (n: Self)
        ensures
            n@ == fresh_raft(id@, strs_view(peers@)),
    {
        let next_index = zero_index_map(&peers);
        let match_index = zero_index_map(&peers);
        let n = RaftNode {
            id,
            current_term: 0,
            voted_for: None,
            role: NodeRole::Follower,
            log: Vec::new(),
            commit_index: 0,
            last_applied: 0,
            votes_received: Vec::new(),
            next_index,
            match_index,
            peers,
            state_machine: Vec::new(),
        };
        proof {
            assert(log_view(n.log@) =~= Seq::<LogEntryView>::empty());
            assert(strs_view(n.votes_received@) =~= Seq::<Seq<char>>::empty());
            assert(strs_view(n.state_machine@) =~= Seq::<Seq<char>>::empty());
        }
        n
    }

    /// As leader, with `acks` nodes (itself included) holding its last entry:
    /// commits up to that entry on a majority and applies what it commits.
    fn commit_through(&mut self, acks: usize)
        ensures
            final(self)@ == leader_commits(old(self)@, acks as int),
    {
        let p = self.peers.len();
        let quorum = p / 2 + p % 2 + 1;
        if acks >= quorum && self.log.len() > self.commit_index {
            self.commit_index = self.log.len();
            let ghost la0 = self.last_applied;
            let ghost sm0 = strs_view(self.state_machine@);
            let ghost n1 = self@;
            while self.last_applied < self.commit_index
                invariant
                    self@ == (RaftView { last_applied: self.last_applied, state_machine: strs_view(self.state_machine@), ..n1 }),
                    n1.last_applied == la0,
                    n1.commit_index == self.log@.len(),
                    la0 <= self.last_applied,
                    la0 < self.commit_index ==> self.last_applied <= self.commit_index,
                    la0 >= self.commit_index ==> self.last_applied == la0,
                    strs_view(self.state_machine@) == sm0 + applied_commands(log_view(self.log@), la0 as int, self.last_applied as int),
                decreases self.commit_index - self.last_applied,
            {
                let ghost before = self.state_machine@;
                if self.last_applied < self.log.len() {
                    self.state_machine.push(self.log[self.last_applied].command.clone());
                    proof {
                        assert(strs_view(self.state_machine@) =~= strs_view(before).push(self.log@[self.last_applied as int].command@));
                    }
                }
                self.last_applied = self.last_applied + 1;
            }
            proof {
                assert(strs_view(self.state_machine@) =~= sm0 + applied_commands(log_view(self.log@), la0 as int, self.commit_index as int)) by {
                    if la0 >= self.commit_index {
                        assert(applied_commands(log_view(self.log@), la0 as int, self.commit_index as int) =~= Seq::<Seq<char>>::empty());
                    }
                }
            }
        }
    }

    fn last_log_term(&self) -> (t: u64)
        ensures
            t == last_term(self@.log),
    {
        if self.log.len() == 0 {
            0
        } else {
            self.log[self.log.len() - 1].term
        }
    }

    /// Becomes a candidate for the next term and asks for votes.
    pub fn start_election(&mut self) -> (m: RaftMessage)
        requires
            old(self).current_term < u64::MAX,
        ensures
            (final(self)@, m@) == raft_start_election(old(self)@),
    {
        self.current_term = self.current_term + 1;
        self.role = NodeRole::Candidate;
        self.voted_for = Some(self.id.clone());
        self.votes_received = vec![self.id.clone()];
        proof {
            assert(strs_view(self.votes_received@) =~= seq![self.id@]);
        }
        let last_log_index = if self.log.len() == 0 { 0 } else { self.log.len() - 1 };
        let last_log_term = self.last_log_term();
        RaftMessage::RequestVote {
            term: self.current_term,
            candidate_id: self.id.clone(),
            last_log_index,
            last_log_term,
        }
    }

    /// Answers a vote request.
    pub fn handle_request_vote(&mut self, msg: &RaftMessage) -> (resp: RaftMessage)
        requires
            msg@ is RequestVote,
        ensures
            match msg@ {
                RaftMessageView::RequestVote { term, candidate_id, last_log_index, last_log_term } =>
                    (final(self)@, resp@) == raft_on_request_vote(old(self)@, term, candidate_id, last_log_index, last_log_term),
                _ => false,
            },
    {
        match msg {
            RaftMessage::RequestVote { term, candidate_id, last_log_index, last_log_term } => {
                if *term < self.current_term {
                    return RaftMessage::VoteResponse {
                        term: self.current_term,
                        vote_granted: false,
                        voter_id: self.id.clone(),
                    };
                }
                let free = match &self.voted_for {
                    None => true,
                    Some(v) => *v == *candidate_id,
                };
                let grant = if free {
                    let my_last_idx = if self.log.len() == 0 { 0 } else { self.log.len() - 1 };
                    let my_last_term = self.last_log_term();
                    *last_log_term > my_last_term || (*last_log_term == my_last_term && *last_log_index >= my_last_idx)
                } else {
                    false
                };
                if grant {
                    if *term > self.current_term {
                        self.current_term = *term;
                        self.role = NodeRole::Follower;
                    }
                    self.voted_for = Some(candidate_id.clone());
                }
                RaftMessage::VoteResponse {
                    term: self.current_term,
                    vote_granted: grant,
                    voter_id: self.id.clone(),
                }
            },
            _ => {
                proof {
                    assert(false);
                }
                RaftMessage::VoteResponse { term: self.current_term, vote_granted: false, voter_id: self.id.clone() }
            },
        }
    }

    /// Counts a vote response; a majority makes a candidate leader, and a
    /// higher term makes the node a follower of that term.
    pub fn handle_vote_response(&mut self, msg: &RaftMessage)
        ensures
            final(self)@ == raft_on_vote_response(old(self)@, msg@),
    {
        match msg {
            RaftMessage::VoteResponse { term, vote_granted, voter_id } => {
                if *term > self.current_term {
                    self.current_term = *term;
                    self.role = NodeRole::Follower;
                    return;
                }
                if *vote_granted && self.role == NodeRole::Candidate {
                    let ghost before = self.votes_received@;
                    if !contains_string(&self.votes_received, voter_id) {
                        self.votes_received.push(voter_id.clone());
                        proof {
                            assert(strs_view(self.votes_received@) =~= strs_view(before).push(voter_id@));
                        }
                    }
                    let n = self.peers.len();
                    let quorum = n / 2 + n % 2 + 1;
                    if self.votes_received.len() >= quorum {
                        self.role = NodeRole::Leader;
                    }
                }
            },
            _ => {},
        }
    }

    /// Handles an append request from the leader; false when the consistency
    /// check fails, in which case nothing changes.
    pub fn append_entries(&mut self, entries: Vec<LogEntry>, prev_index: usize, prev_term: u64, leader_commit: usize) -> (ok: bool)
        ensures
            (final(self)@, ok) == raft_append(old(self)@, log_view(entries@), prev_index, prev_term, leader_commit),
    {
        let ghost n0 = self@;
        let ghost es = log_view(entries@);
        if prev_index > 0 {
            if self.log.len() < prev_index {
                return false;
            }
            if self.log[prev_index - 1].term != prev_term {
                return false;
            }
        }
        let mut i: usize = 0;
        proof {
            assert(es.take(0) =~= Seq::<LogEntryView>::empty());
        }
        while i < entries.len()
            invariant
                i <= entries@.len(),
                es == log_view(entries@),
                prev_index + i <= self.log.len(),
                log_view(self.log@) == merge_entries(n0.log, prev_index as int, es.take(i as int)),
                self@ == (RaftView { log: log_view(self.log@), ..n0 }),
            decreases entries@.len() - i,
        {
            proof {
                assert(es.take(i as int + 1).drop_last() =~= es.take(i as int));
                assert(es.take(i as int + 1).last() == entries@[i as int]@);
            }
            let idx = prev_index + i;
            let ghost before = self.log@;
            if idx < self.log.len() {
                if self.log[idx].term != entries[i].term {
                    self.log.truncate(idx);
                    self.log.push(entries[i].duplicate());
                    proof {
                        assert(log_view(self.log@) =~= log_view(before).take(idx as int).push(entries@[i as int]@));
                    }
                }
            } else {
                self.log.push(entries[i].duplicate());
                proof {
                    assert(log_view(self.log@) =~= log_view(before).push(entries@[i as int]@));
                }
            }
            i = i + 1;
        }
        proof {
            assert(es.take(i as int) =~= es);
        }
        if leader_commit > self.commit_index {
            self.commit_index = if leader_commit < self.log.len() { leader_commit } else { self.log.len() };
        }
        let ghost la0 = self.last_applied;
        let ghost sm0 = strs_view(self.state_machine@);
        let ghost n1 = self@;
        while self.last_applied < self.commit_index
            invariant
                self@ == (RaftView { last_applied: self.last_applied, state_machine: strs_view(self.state_machine@), ..n1 }),
                n1.last_applied == la0,
                la0 <= self.last_applied,
                la0 < self.commit_index ==> self.last_applied <= self.commit_index,
                la0 >= self.commit_index ==> self.last_applied == la0,
                strs_view(self.state_machine@) == sm0 + applied_commands(log_view(self.log@), la0 as int, self.last_applied as int),
            decreases self.commit_index - self.last_applied,
        {
            let ghost before = self.state_machine@;
            if self.last_applied < self.log.len() {
                self.state_machine.push(self.log[self.last_applied].command.clone());
                proof {
                    assert(strs_view(self.state_machine@) =~= strs_view(before).push(self.log@[self.last_applied as int].command@));
                }
            }
            self.last_applied = self.last_applied + 1;
        }
        proof {
            assert(strs_view(self.state_machine@) =~= sm0 + applied_commands(log_view(self.log@), la0 as int, self.commit_index as int)) by {
                if la0 >= self.commit_index {
                    assert(applied_commands(log_view(self.log@), la0 as int, self.commit_index as int) =~= Seq::<Seq<char>>::empty());
                }
            }
        }
        true
    }

    /// As leader, appends `command` to the log and returns the request that
    /// replicates it; returns `None` and does nothing when not leader.
    pub fn leader_append(&mut self, command: String) -> (m: Option<RaftMessage>)
        ensures
            final(self)@ == raft_leader_append(old(self)@, command@).0,
            match m {
                Some(x) => raft_leader_append(old(self)@, command@).1 == Some(x@),
                None => raft_leader_append(old(self)@, command@).1 is None,
            },
    {
        if self.role != NodeRole::Leader {
            return None;
        }
        let prev_term = self.last_log_term();
        let entry = LogEntry { term: self.current_term, command };
        let ghost before = self.log@;
        self.log.push(entry.duplicate());
        proof {
            assert(log_view(self.log@) =~= log_view(before).push(entry@));
        }
        let prev_idx = self.log.len() - 1;
        let entries = vec![entry];
        proof {
            assert(log_view(entries@) =~= seq![entry@]);
        }
        Some(RaftMessage::AppendEntries {
            term: self.current_term,
            leader_id: self.id.clone(),
            prev_log_index: prev_idx,
            prev_log_term: prev_term,
            entries,
            leader_commit: self.commit_index,
        })
    }
}


pub open spec fn raft_msgs_view(v: Seq<RaftMessage>) -> Seq<RaftMessageView> {
    v.map_values(|m: RaftMessage| m@)
}

/// The nodes among the first `i`, other than the candidate `c`, answering the
/// vote request in order, and their answers.
pub open spec fn collect_votes(nodes: Seq<RaftView>, c: int, req: RaftMessageView, i: int) -> (Seq<RaftView>, Seq<RaftMessageView>)
    decreases i,
{
    if i <= 0 {
        (nodes, Seq::empty())
    } else {
        let (ns, rs) = collect_votes(nodes, c, req, i - 1);
        if i - 1 == c || i - 1 >= ns.len() {
            (ns, rs)
        } else {
            match req {
                RaftMessageView::RequestVote { term, candidate_id, last_log_index, last_log_term } => {
                    let (n2, r) = raft_on_request_vote(ns[i - 1], term, candidate_id, last_log_index, last_log_term);
                    (ns.update(i - 1, n2), rs.push(r))
                },
                _ => (ns, rs),
            }
        }
    }
}

/// A candidate counting the answers in order.
pub open spec fn tally_votes(n: RaftView, rs: Seq<RaftMessageView>) -> RaftView
    decreases rs.len(),
{
    if rs.len() == 0 {
        n
    } else {
        raft_on_vote_response(tally_votes(n, rs.drop_last()), rs.last())
    }
}

/// The cluster after node `c` runs for election: it asks every other node for
/// its vote, then counts the answers.
pub open spec fn election_run(nodes: Seq<RaftView>, c: int) -> Seq<RaftView> {
    let (cn, req) = raft_start_election(nodes[c]);
    let (ns, rs) = collect_votes(nodes.update(c, cn), c, req, nodes.len() as int);
    ns.update(c, tally_votes(ns[c], rs))
}

/// The nodes among the first `i`, other than the leader `l`, handling the append request.
pub open spec fn append_to_others(nodes: Seq<RaftView>, l: int, es: Seq<LogEntryView>, prev: usize, prev_term: u64, commit: usize, i: int) -> Seq<RaftView>
    decreases i,
{
    if i <= 0 {
        nodes
    } else {
        let ns = append_to_others(nodes, l, es, prev, prev_term, commit, i - 1);
        if i - 1 == l || i - 1 >= ns.len() {
            ns
        } else {
            ns.update(i - 1, raft_append(ns[i - 1], es, prev, prev_term, commit).0)
        }
    }
}

/// How many of the nodes among the first `i`, other than the leader `l`,
/// accept the append request.
pub open spec fn count_acks(nodes: Seq<RaftView>, l: int, es: Seq<LogEntryView>, prev: usize, prev_term: u64, commit: usize, i: int) -> int
    decreases i,
{
    if i <= 0 {
        0
    } else {
        count_acks(nodes, l, es, prev, prev_term, commit, i - 1)
            + if i - 1 != l && i - 1 < nodes.len() && raft_append(nodes[i - 1], es, prev, prev_term, commit).1 { 1int } else { 0int }
    }
}

/// A leader after `acks` nodes, itself included, hold its last entry: with a
/// majority of the cluster it commits up to that entry and applies the newly
/// committed commands; otherwise nothing changes.
pub open spec fn leader_commits(n: RaftView, acks: int) -> RaftView {
    if acks >= raft_quorum(n.peers.len() as int) && n.log.len() > n.commit_index {
        let commit = n.log.len() as usize;
        let applied = if n.last_applied < commit { commit } else { n.last_applied };
        RaftView {
            commit_index: commit,
            last_applied: applied,
            state_machine: n.state_machine + applied_commands(n.log, n.last_applied as int, commit as int),
            ..n
        }
    } else {
        n
    }
}

/// The cluster after node `l` appends `command` as leader, every other node
/// handles the request, and the leader commits the entry once a majority,
/// itself included, holds it; nothing changes when `l` is not leader.
pub open spec fn replicate_run(nodes: Seq<RaftView>, l: int, command: Seq<char>) -> Seq<RaftView> {
    let (ln, m) = raft_leader_append(nodes[l], command);
    let n1 = nodes.update(l, ln);
    match m {
        Some(RaftMessageView::AppendEntries { prev_log_index, prev_log_term, entries, leader_commit, .. }) => {
            let ns = append_to_others(n1, l, entries, prev_log_index, prev_log_term, leader_commit, n1.len() as int);
            let acks = 1 + count_acks(n1, l, entries, prev_log_index, prev_log_term, leader_commit, n1.len() as int);
            ns.update(l, leader_commits(ns[l], acks))
        },
        _ => n1,
    }
}

/// Nodes from `i` on have not yet handled the request.
pub proof fn lemma_append_to_others_untouched(nodes: Seq<RaftView>, l: int, es: Seq<LogEntryView>, prev: usize, prev_term: u64, commit: usize, i: int, j: int)
    requires
        i <= j < nodes.len(),
    ensures
        append_to_others(nodes, l, es, prev, prev_term, commit, i)[j] == nodes[j],
    decreases i,
{
    if i > 0 {
        lemma_append_to_others_untouched(nodes, l, es, prev, prev_term, commit, i - 1, j);
        lemma_append_to_others_len(nodes, l, es, prev, prev_term, commit, i - 1);
    }
}

/// The leader itself never handles its own request.
pub proof fn lemma_append_to_others_leader(nodes: Seq<RaftView>, l: int, es: Seq<LogEntryView>, prev: usize, prev_term: u64, commit: usize, i: int)
    requires
        0 <= l < nodes.len(),
    ensures
        append_to_others(nodes, l, es, prev, prev_term, commit, i)[l] == nodes[l],
    decreases i,
{
    if i > 0 {
        lemma_append_to_others_leader(nodes, l, es, prev, prev_term, commit, i - 1);
        lemma_append_to_others_len(nodes, l, es, prev, prev_term, commit, i - 1);
    }
}

/// Acknowledgements never outnumber the nodes counted.
pub proof fn lemma_count_acks_le(nodes: Seq<RaftView>, l: int, es: Seq<LogEntryView>, prev: usize, prev_term: u64, commit: usize, i: int)
    ensures
        0 <= count_acks(nodes, l, es, prev, prev_term, commit, i),
        i >= 0 ==> count_acks(nodes, l, es, prev, prev_term, commit, i) <= i,
    decreases i,
{
    if i > 0 {
        lemma_count_acks_le(nodes, l, es, prev, prev_term, commit, i - 1);
    }
}

pub proof fn lemma_collect_votes_len(nodes: Seq<RaftView>, c: int, req: RaftMessageView, i: int)
    ensures
        collect_votes(nodes, c, req, i).0.len() == nodes.len(),
    decreases i,
{
    if i > 0 {
        lemma_collect_votes_len(nodes, c, req, i - 1);
    }
}

pub proof fn lemma_append_to_others_len(nodes: Seq<RaftView>, l: int, es: Seq<LogEntryView>, prev: usize, prev_term: u64, commit: usize, i: int)
    ensures
        append_to_others(nodes, l, es, prev, prev_term, commit, i).len() == nodes.len(),
    decreases i,
{
    if i > 0 {
        lemma_append_to_others_len(nodes, l, es, prev, prev_term, commit, i - 1);
    }
}

/// A follower at term 0 with an empty id, an empty log and no peers.
fn placeholder() -> (n: RaftNode)
    ensures
        n@ == fresh_raft(Seq::empty(), Seq::empty()),
{
    let peers: Vec<String> = Vec::new();
    proof {
        assert(strs_view(peers@) =~= Seq::<Seq<char>>::empty());
    }
    RaftNode::new(String::new(), peers)
}

/// Runs an election in which node `candidate_idx` asks all others for their votes.
pub fn simulate_election(nodes: &mut Vec<RaftNode>, candidate_idx: usize)
    requires
        candidate_idx < old(nodes)@.len(),
        old(nodes)@[candidate_idx as int].current_term < u64::MAX,
    ensures
        final(nodes)@.len() == old(nodes)@.len(),
        rafts_view(final(nodes)@) == election_run(rafts_view(old(nodes)@), candidate_idx as int),
{
    let ghost start = rafts_view(nodes@);
    let mut slot = placeholder();
    nodes.set_and_swap(candidate_idx, &mut slot);
    let vote_req = slot.start_election();
    nodes.set_and_swap(candidate_idx, &mut slot);
    let ghost n1 = rafts_view(nodes@);
    proof {
        assert(n1 =~= start.update(candidate_idx as int, nodes@[candidate_idx as int]@));
    }
    let mut responses: Vec<RaftMessage> = Vec::new();
    let mut i: usize = 0;
    proof {
        assert(raft_msgs_view(responses@) =~= Seq::<RaftMessageView>::empty());
    }
    while i < nodes.len()
        invariant
            i <= nodes@.len(),
            nodes@.len() == start.len(),
            n1.len() == start.len(),
            vote_req@ is RequestVote,
            (rafts_view(nodes@), raft_msgs_view(responses@)) == collect_votes(n1, candidate_idx as int, vote_req@, i as int),
        decreases nodes@.len() - i,
    {
        proof {
            lemma_collect_votes_len(n1, candidate_idx as int, vote_req@, i as int);
        }
        if i != candidate_idx {
            let ghost before = nodes@;
            let ghost before_r = responses@;
            let mut slot = placeholder();
            nodes.set_and_swap(i, &mut slot);
            let resp = slot.handle_request_vote(&vote_req);
            nodes.set_and_swap(i, &mut slot);
            responses.push(resp);
            proof {
                assert(rafts_view(nodes@) =~= rafts_view(before).update(i as int, nodes@[i as int]@));
                assert(raft_msgs_view(responses@) =~= raft_msgs_view(before_r).push(resp@));
            }
        }
        i = i + 1;
    }
    let ghost n2 = rafts_view(nodes@);
    let mut slot = placeholder();
    nodes.set_and_swap(candidate_idx, &mut slot);
    let ghost cand = slot@;
    let mut j: usize = 0;
    while j < responses.len()
        invariant
            j <= responses@.len(),
            slot@ == tally_votes(cand, raft_msgs_view(responses@).take(j as int)),
        decreases responses@.len() - j,
    {
        proof {
            assert(raft_msgs_view(responses@).take(j as int + 1).drop_last() =~= raft_msgs_view(responses@).take(j as int));
        }
        slot.handle_vote_response(&responses[j]);
        j = j + 1;
    }
    proof {
        assert(raft_msgs_view(responses@).take(j as int) =~= raft_msgs_view(responses@));
    }
    let ghost before = nodes@;
    nodes.set_and_swap(candidate_idx, &mut slot);
    proof {
        assert(rafts_view(nodes@) =~= n2.update(candidate_idx as int, nodes@[candidate_idx as int]@));
    }
}

/// Appends `command` at node `leader_idx` and replicates it to all other
/// nodes; once a majority, the leader included, holds the entry, the leader
/// commits it and applies it. Nothing happens when that node is not leader.
pub fn replicate_entry(nodes: &mut Vec<RaftNode>, leader_idx: usize, command: &str)
    requires
        leader_idx < old(nodes)@.len(),
    ensures
        final(nodes)@.len() == old(nodes)@.len(),
        rafts_view(final(nodes)@) == replicate_run(rafts_view(old(nodes)@), leader_idx as int, command@),
{
    let ghost start = rafts_view(nodes@);
    let mut slot = placeholder();
    nodes.set_and_swap(leader_idx, &mut slot);
    let m = slot.leader_append(command.to_owned());
    nodes.set_and_swap(leader_idx, &mut slot);
    let ghost n1 = rafts_view(nodes@);
    proof {
        assert(n1 =~= start.update(leader_idx as int, nodes@[leader_idx as int]@));
    }
    if let Some(msg) = m {
        if let RaftMessage::AppendEntries { prev_log_index, prev_log_term, entries, leader_commit, .. } = &msg {
            let ghost es = log_view(entries@);
            let mut acks: usize = 1;
            let mut i: usize = 0;
            while i < nodes.len()
                invariant
                    i <= nodes@.len(),
                    nodes@.len() == start.len(),
                    n1.len() == start.len(),
                    leader_idx < n1.len(),
                    es == log_view(entries@),
                    rafts_view(nodes@) == append_to_others(n1, leader_idx as int, es, *prev_log_index, *prev_log_term, *leader_commit, i as int),
                    acks == 1 + count_acks(n1, leader_idx as int, es, *prev_log_index, *prev_log_term, *leader_commit, i as int),
                    acks <= (if (leader_idx as int) < i { i as int } else { i + 1 }),
                decreases nodes@.len() - i,
            {
                proof {
                    lemma_append_to_others_len(n1, leader_idx as int, es, *prev_log_index, *prev_log_term, *leader_commit, i as int);
                    lemma_append_to_others_untouched(n1, leader_idx as int, es, *prev_log_index, *prev_log_term, *leader_commit, i as int, i as int);
                }
                if i != leader_idx {
                    let ghost before = nodes@;
                    let mut slot = placeholder();
                    nodes.set_and_swap(i, &mut slot);
                    let success = slot.append_entries(copy_entries(entries), *prev_log_index, *prev_log_term, *leader_commit);
                    nodes.set_and_swap(i, &mut slot);
                    proof {
                        assert(rafts_view(before)[i as int] == n1[i as int]);
                        assert(rafts_view(nodes@) =~= rafts_view(before).update(i as int, nodes@[i as int]@));
                    }
                    if success {
                        acks = acks + 1;
                    }
                }
                i = i + 1;
            }
            proof {
                lemma_append_to_others_len(n1, leader_idx as int, es, *prev_log_index, *prev_log_term, *leader_commit, i as int);
            }
            let ghost ns = rafts_view(nodes@);
            proof {
                assert(ns[leader_idx as int] == n1[leader_idx as int]) by {
                    lemma_append_to_others_leader(n1, leader_idx as int, es, *prev_log_index, *prev_log_term, *leader_commit, i as int);
                }
            }
            let mut slot = placeholder();
            nodes.set_and_swap(leader_idx, &mut slot);
            slot.commit_through(acks);
            nodes.set_and_swap(leader_idx, &mut slot);
            proof {
                assert(rafts_view(nodes@) =~= ns.update(leader_idx as int, leader_commits(ns[leader_idx as int], acks as int)));
            }
        }
    }
}

/// Placing entries from `prev` on keeps what lies before `prev`, and leaves
/// the log with an entry of the same term as each placed entry, at its place.
proof fn lemma_merge_entries(log: Seq<LogEntryView>, prev: int, es: Seq<LogEntryView>)
    requires
        0 <= prev <= log.len(),
    ensures
        merge_entries(log, prev, es).len() >= prev + es.len(),
        merge_entries(log, prev, es).take(prev) == log.take(prev),
        forall|k: int| 0 <= k < es.len() ==> #[trigger] merge_entries(log, prev, es)[prev + k].term == es[k].term,
    decreases es.len(),
{
    if es.len() > 0 {
        let d = es.drop_last();
        lemma_merge_entries(log, prev, d);
        let l1 = merge_entries(log, prev, d);
        let idx = prev + es.len() - 1;
        let e = es.last();
        let l2 = merge_entries(log, prev, es);
        assert(l2 == merge_entry(l1, idx, e));
        assert forall|k: int| 0 <= k < es.len() implies #[trigger] l2[prev + k].term == es[k].term by {
            if k < es.len() - 1 {
                assert(d[k] == es[k]);
                assert(l1[prev + k].term == d[k].term);
                assert(l2[prev + k] == l1[prev + k]);
            }
        }
        assert(l2.take(prev) =~= l1.take(prev));
    }
}

/// Placing entries the log already agrees with, by term, changes nothing.
proof fn lemma_merge_entries_agreeing(log: Seq<LogEntryView>, prev: int, es: Seq<LogEntryView>)
    requires
        0 <= prev,
        log.len() >= prev + es.len(),
        forall|k: int| 0 <= k < es.len() ==> #[trigger] log[prev + k].term == es[k].term,
    ensures
        merge_entries(log, prev, es) == log,
    decreases es.len(),
{
    if es.len() > 0 {
        let d = es.drop_last();
        assert forall|k: int| 0 <= k < d.len() implies #[trigger] log[prev + k].term == d[k].term by {
            assert(d[k] == es[k]);
            assert(log[prev + k].term == es[k].term);
        }
        lemma_merge_entries_agreeing(log, prev, d);
        assert(log[prev + (es.len() - 1)].term == es[es.len() - 1].term);
    }
}

/// The log matching property of an append request: it succeeds exactly when
/// the log has the entry the request builds on; then the entries before that
/// point are kept and each entry of the request has, at its place, an entry
/// of the same term. A refused request changes nothing.
pub proof fn law_append_log_matching(n: RaftView, es: Seq<LogEntryView>, prev: usize, prev_term: u64, leader_commit: usize)
    ensures
        raft_append(n, es, prev, prev_term, leader_commit).1 == prev_matches(n.log, prev, prev_term),
        !raft_append(n, es, prev, prev_term, leader_commit).1 ==> raft_append(n, es, prev, prev_term, leader_commit).0 == n,
        raft_append(n, es, prev, prev_term, leader_commit).1 ==> {
            let log = raft_append(n, es, prev, prev_term, leader_commit).0.log;
            &&& log.len() >= prev + es.len()
            &&& log.take(prev as int) == n.log.take(prev as int)
            &&& forall|k: int| 0 <= k < es.len() ==> #[trigger] log[prev + k].term == es[k].term
        },
{
    if prev_matches(n.log, prev, prev_term) {
        lemma_merge_entries(n.log, prev as int, es);
    }
}

/// A repeated append request changes nothing: once a request has succeeded,
/// delivering it again leaves the node as it is, log, commit index and
/// applied commands included.
pub proof fn law_append_idempotent(n: RaftView, es: Seq<LogEntryView>, prev: usize, prev_term: u64, leader_commit: usize)
    requires
        raft_append(n, es, prev, prev_term, leader_commit).1,
    ensures
        raft_append(raft_append(n, es, prev, prev_term, leader_commit).0, es, prev, prev_term, leader_commit)
            == (raft_append(n, es, prev, prev_term, leader_commit).0, true),
{
    let n1 = raft_append(n, es, prev, prev_term, leader_commit).0;
    lemma_merge_entries(n.log, prev as int, es);
    assert(n1.log.take(prev as int) == n.log.take(prev as int));
    if prev > 0 {
        assert(n1.log[prev - 1] == n1.log.take(prev as int)[prev - 1]);
        assert(n.log[prev - 1] == n.log.take(prev as int)[prev - 1]);
    }
    assert(prev_matches(n1.log, prev, prev_term));
    lemma_merge_entries_agreeing(n1.log, prev as int, es);
    let n2 = raft_append(n1, es, prev, prev_term, leader_commit).0;
    assert(applied_commands(n1.log, n1.last_applied as int, n1.commit_index as int) =~= Seq::<Seq<char>>::empty());
    assert(n2.state_machine =~= n1.state_machine);
    assert(n2 =~= n1);
}

/// One vote per node: once a node has granted its vote to a candidate, it
/// refuses every other candidate.
pub proof fn law_vote_once(
    n: RaftView,
    t1: u64,
    c1: Seq<char>,
    i1: usize,
    lt1: u64,
    t2: u64,
    c2: Seq<char>,
    i2: usize,
    lt2: u64,
)
    requires
        vote_granted(n, t1, c1, i1, lt1),
        c1 != c2,
    ensures
        raft_on_request_vote(n, t1, c1, i1, lt1).0.voted_for == Some(c1),
        !vote_granted(raft_on_request_vote(n, t1, c1, i1, lt1).0, t2, c2, i2, lt2),
{
}

/// Terms never go back: no vote request, vote response, append request or
/// client command lowers a node's term, and starting an election raises it.
pub proof fn law_terms_monotone(n: RaftView, m: RaftMessageView, t: u64, c: Seq<char>, li: usize, lt: u64, es: Seq<LogEntryView>, prev: usize, prev_term: u64, commit: usize, command: Seq<char>)
    ensures
        raft_on_request_vote(n, t, c, li, lt).0.current_term >= n.current_term,
        raft_on_vote_response(n, m).current_term >= n.current_term,
        raft_append(n, es, prev, prev_term, commit).0.current_term == n.current_term,
        raft_leader_append(n, command).0.current_term == n.current_term,
        n.current_term < u64::MAX ==> raft_start_election(n).0.current_term == n.current_term + 1,
{
}

/// A node that has never voted, at term 0 with an empty log.
pub open spec fn unvoted(n: RaftView) -> bool {
    &&& n.current_term == 0
    &&& n.voted_for is None
    &&& n.log.len() == 0
}

/// How many of the first `i` nodes are not `skip`.
pub open spec fn others_among(skip: int, i: int) -> int {
    if 0 <= skip < i { i - 1 } else { i }
}

/// The position of the `k`-th node other than `skip`.
pub open spec fn other_index(skip: int, k: int) -> int {
    if k < skip { k } else { k + 1 }
}

/// The voter named in a vote response.
pub open spec fn voter_of(m: RaftMessageView) -> Seq<char> {
    match m {
        RaftMessageView::VoteResponse { voter_id, .. } => voter_id,
        _ => Seq::empty(),
    }
}

/// The voters named in a sequence of vote responses.
pub open spec fn voters(rs: Seq<RaftMessageView>) -> Seq<Seq<char>> {
    rs.map_values(|m: RaftMessageView| voter_of(m))
}

/// A vote granted in term 1.
pub open spec fn first_term_grant(m: RaftMessageView) -> bool {
    m == (RaftMessageView::VoteResponse { term: 1, vote_granted: true, voter_id: voter_of(m) })
}

/// Nodes that never voted all grant the first-term request of `cid`, in order.
proof fn lemma_collect_unvoted(nodes: Seq<RaftView>, c: int, cid: Seq<char>, i: int)
    requires
        0 <= c < nodes.len(),
        0 <= i <= nodes.len(),
        forall|j: int| #![trigger nodes[j]] 0 <= j < nodes.len() && j != c ==> unvoted(nodes[j]),
    ensures
        ({
            let req = RaftMessageView::RequestVote { term: 1, candidate_id: cid, last_log_index: 0, last_log_term: 0 };
            let (ns, rs) = collect_votes(nodes, c, req, i);
            &&& ns.len() == nodes.len()
            &&& forall|j: int| #![trigger ns[j]] 0 <= j < nodes.len() ==> ns[j] == if j < i && j != c {
                RaftView { current_term: 1, role: NodeRole::Follower, voted_for: Some(cid), ..nodes[j] }
            } else {
                nodes[j]
            }
            &&& rs.len() == others_among(c, i)
            &&& forall|k: int| #![trigger rs[k]] 0 <= k < rs.len() ==> rs[k] == RaftMessageView::VoteResponse {
                term: 1,
                vote_granted: true,
                voter_id: nodes[other_index(c, k)].id,
            }
        }),
    decreases i,
{
    if i > 0 {
        lemma_collect_unvoted(nodes, c, cid, i - 1);
        let req = RaftMessageView::RequestVote { term: 1, candidate_id: cid, last_log_index: 0, last_log_term: 0 };
        let (ns, rs) = collect_votes(nodes, c, req, i - 1);
        if i - 1 != c {
            assert(ns[i - 1] == nodes[i - 1]);
            assert(unvoted(nodes[i - 1]));
            let (ns2, rs2) = collect_votes(nodes, c, req, i);
            assert(rs2 == rs.push(RaftMessageView::VoteResponse { term: 1, vote_granted: true, voter_id: nodes[i - 1].id }));
            assert forall|k: int| #![trigger rs2[k]] 0 <= k < rs2.len() implies rs2[k] == RaftMessageView::VoteResponse {
                term: 1,
                vote_granted: true,
                voter_id: nodes[other_index(c, k)].id,
            } by {
                if k < rs.len() {
                    assert(rs2[k] == rs[k]);
                }
            }
        }
    }
}

/// A first-term candidate counting granted votes from distinct voters other
/// than itself: it becomes leader on the vote that makes a majority, itself
/// included, and stays candidate before.
proof fn lemma_tally_granted(n: RaftView, rs: Seq<RaftMessageView>)
    requires
        n.role == NodeRole::Candidate,
        n.current_term == 1,
        n.votes_received == seq![n.id],
        forall|k: int| #![trigger rs[k]] 0 <= k < rs.len() ==> first_term_grant(rs[k]) && voter_of(rs[k]) != n.id,
        forall|a: int, b: int| 0 <= a < b < rs.len() ==> voter_of(#[trigger] rs[a]) != voter_of(#[trigger] rs[b]),
    ensures
        tally_votes(n, rs).current_term == 1,
        rs.len() >= 1 && 1 + rs.len() >= raft_quorum(n.peers.len() as int) ==> tally_votes(n, rs).role == NodeRole::Leader,
        rs.len() == 0 || 1 + rs.len() < raft_quorum(n.peers.len() as int) ==> tally_votes(n, rs).role == NodeRole::Candidate,
        rs.len() == 0 || 1 + rs.len() < raft_quorum(n.peers.len() as int) ==> tally_votes(n, rs).votes_received == seq![n.id] + voters(rs),
        tally_votes(n, rs).peers == n.peers,
    decreases rs.len(),
{
    if rs.len() > 0 {
        let d = rs.drop_last();
        assert forall|k: int| #![trigger d[k]] 0 <= k < d.len() implies first_term_grant(d[k]) && voter_of(d[k]) != n.id by {
            assert(d[k] == rs[k]);
        }
        assert forall|a: int, b: int| 0 <= a < b < d.len() implies voter_of(#[trigger] d[a]) != voter_of(#[trigger] d[b]) by {
            assert(d[a] == rs[a]);
            assert(d[b] == rs[b]);
        }
        lemma_tally_granted(n, d);
        let t = tally_votes(n, d);
        let last = rs.last();
        assert(rs[rs.len() - 1] == last);
        let v = voter_of(last);
        if d.len() == 0 || 1 + d.len() < raft_quorum(n.peers.len() as int) {
            let votes = seq![n.id] + voters(d);
            assert(t.votes_received == votes);
            assert(!votes.contains(v)) by {
                if votes.contains(v) {
                    let k = choose|k: int| 0 <= k < votes.len() && votes[k] == v;
                    if k > 0 {
                        assert(votes[k] == voter_of(d[k - 1]));
                        assert(d[k - 1] == rs[k - 1]);
                    }
                }
            }
            assert(votes.push(v) =~= seq![n.id] + voters(rs));
        }
    }
}

/// An election on a cluster whose nodes never voted, with distinct ids, at
/// least two nodes, and a candidate that knows every other node as a peer:
/// the candidate becomes leader of term 1, and every other node follows it
/// in term 1, having voted for it.
pub proof fn law_first_election(nodes: Seq<RaftView>, c: int)
    requires
        0 <= c < nodes.len(),
        nodes.len() >= 2,
        nodes[c].peers.len() == nodes.len() - 1,
        forall|j: int| 0 <= j < nodes.len() ==> #[trigger] unvoted(nodes[j]),
        forall|a: int, b: int| 0 <= a < nodes.len() && 0 <= b < nodes.len() && a != b ==> #[trigger] nodes[a].id != #[trigger] nodes[b].id,
    ensures
        election_run(nodes, c).len() == nodes.len(),
        election_run(nodes, c)[c].role == NodeRole::Leader,
        election_run(nodes, c)[c].current_term == 1,
        forall|j: int| 0 <= j < nodes.len() && j != c ==> {
            &&& (#[trigger] election_run(nodes, c)[j]).role == NodeRole::Follower
            &&& election_run(nodes, c)[j].current_term == 1
            &&& election_run(nodes, c)[j].voted_for == Some(nodes[c].id)
        },
{
    let len = nodes.len() as int;
    let cid = nodes[c].id;
    assert(unvoted(nodes[c]));
    let (cn, req) = raft_start_election(nodes[c]);
    assert(req == RaftMessageView::RequestVote { term: 1, candidate_id: cid, last_log_index: 0, last_log_term: 0 });
    let n1 = nodes.update(c, cn);
    assert forall|j: int| #![trigger n1[j]] 0 <= j < len && j != c implies unvoted(n1[j]) by {
        assert(unvoted(nodes[j]));
    }
    lemma_collect_unvoted(n1, c, cid, len);
    let (ns, rs) = collect_votes(n1, c, req, len);
    assert(ns[c] == cn);
    assert forall|k: int| #![trigger rs[k]] 0 <= k < rs.len() implies first_term_grant(rs[k]) && voter_of(rs[k]) != cn.id by {
        assert(n1[other_index(c, k)] == nodes[other_index(c, k)]);
    }
    assert forall|a: int, b: int| 0 <= a < b < rs.len() implies voter_of(#[trigger] rs[a]) != voter_of(#[trigger] rs[b]) by {
        assert(n1[other_index(c, a)] == nodes[other_index(c, a)]);
        assert(n1[other_index(c, b)] == nodes[other_index(c, b)]);
    }
    lemma_tally_granted(cn, rs);
    assert forall|j: int| 0 <= j < len && j != c implies {
        &&& (#[trigger] election_run(nodes, c)[j]).role == NodeRole::Follower
        &&& election_run(nodes, c)[j].current_term == 1
        &&& election_run(nodes, c)[j].voted_for == Some(cid)
    } by {
        assert(election_run(nodes, c)[j] == ns[j]);
    }
}

/// Followers whose log equals `log` all take the leader's new entry.
proof fn lemma_append_to_agreeing(
    nodes: Seq<RaftView>,
    l: int,
    log: Seq<LogEntryView>,
    e: LogEntryView,
    commit: usize,
    i: int,
)
    requires
        0 <= i <= nodes.len(),
        log.len() <= usize::MAX,
        forall|j: int| #![trigger nodes[j]] 0 <= j < nodes.len() && j != l ==> nodes[j].log == log,
    ensures
        append_to_others(nodes, l, seq![e], log.len() as usize, last_term(log), commit, i).len() == nodes.len(),
        forall|j: int| #![trigger append_to_others(nodes, l, seq![e], log.len() as usize, last_term(log), commit, i)[j]]
            0 <= j < nodes.len() ==>
            if j < i && j != l {
                append_to_others(nodes, l, seq![e], log.len() as usize, last_term(log), commit, i)[j].log == log.push(e)
            } else {
                append_to_others(nodes, l, seq![e], log.len() as usize, last_term(log), commit, i)[j] == nodes[j]
            },
    decreases i,
{
    if i > 0 {
        lemma_append_to_agreeing(nodes, l, log, e, commit, i - 1);
        let ns = append_to_others(nodes, l, seq![e], log.len() as usize, last_term(log), commit, i - 1);
        if i - 1 != l {
            assert(ns[i - 1] == nodes[i - 1]);
            assert(prev_matches(log, log.len() as usize, last_term(log)));
            let es = seq![e];
            assert(es.drop_last() =~= Seq::<LogEntryView>::empty());
            assert(merge_entries(log, log.len() as int, es.drop_last()) == log);
            assert(es.last() == e);
            assert(merge_entry(log, log.len() as int, e) == log.push(e));
            assert(merge_entries(log, log.len() as int, es) == log.push(e));
        }
    }
}

/// When all nodes of a cluster agree on each other's acceptance, every
/// follower acknowledges.
proof fn lemma_count_acks_all(nodes: Seq<RaftView>, l: int, es: Seq<LogEntryView>, prev: usize, prev_term: u64, commit: usize, i: int)
    requires
        0 <= i <= nodes.len(),
        forall|j: int| #![trigger nodes[j]] 0 <= j < nodes.len() && j != l ==> raft_append(nodes[j], es, prev, prev_term, commit).1,
    ensures
        count_acks(nodes, l, es, prev, prev_term, commit, i) == others_among(l, i),
    decreases i,
{
    if i > 0 {
        lemma_count_acks_all(nodes, l, es, prev, prev_term, commit, i - 1);
        if i - 1 != l {
            assert(raft_append(nodes[i - 1], es, prev, prev_term, commit).1);
        }
    }
}

/// Replication keeps logs in agreement and commits: when every node's log
/// equals the leader's, after the leader replicates a command every node's
/// log is the leader's former log with the new entry, at the leader's term,
/// appended; every follower acknowledges, so when the leader's peers are the
/// other nodes it commits up to the new entry.
pub proof fn law_replicate_keeps_logs_equal(nodes: Seq<RaftView>, l: int, command: Seq<char>)
    requires
        0 <= l < nodes.len(),
        nodes[l].role == NodeRole::Leader,
        nodes[l].log.len() < usize::MAX,
        forall|j: int| 0 <= j < nodes.len() ==> (#[trigger] nodes[j]).log == nodes[l].log,
    ensures
        replicate_run(nodes, l, command).len() == nodes.len(),
        replicate_run(nodes, l, command)[l].role == NodeRole::Leader,
        forall|j: int| 0 <= j < nodes.len() ==> (#[trigger] replicate_run(nodes, l, command)[j]).log
            == nodes[l].log.push(LogEntryView { term: nodes[l].current_term, command }),
        nodes[l].peers.len() + 1 == nodes.len() && nodes[l].commit_index <= nodes[l].log.len() ==>
            replicate_run(nodes, l, command)[l].commit_index == nodes[l].log.len() + 1,
{
    let log = nodes[l].log;
    let e = LogEntryView { term: nodes[l].current_term, command };
    let (ln, m) = raft_leader_append(nodes[l], command);
    let n1 = nodes.update(l, ln);
    let commit = nodes[l].commit_index;
    let es = seq![e];
    assert forall|j: int| #![trigger n1[j]] 0 <= j < n1.len() && j != l implies n1[j].log == log by {
        assert(nodes[j].log == log);
    }
    lemma_append_to_agreeing(n1, l, log, e, commit, n1.len() as int);
    lemma_append_to_others_leader(n1, l, es, log.len() as usize, last_term(log), commit, n1.len() as int);
    assert forall|j: int| #![trigger n1[j]] 0 <= j < n1.len() && j != l implies
        raft_append(n1[j], es, log.len() as usize, last_term(log), commit).1 by {
        assert(n1[j].log == log);
    }
    lemma_count_acks_all(n1, l, es, log.len() as usize, last_term(log), commit, n1.len() as int);
    let r = replicate_run(nodes, l, command);
    let ns = append_to_others(n1, l, es, log.len() as usize, last_term(log), commit, n1.len() as int);
    assert(ns[l] == ln);
    assert(r[l] == leader_commits(ln, 1 + others_among(l, n1.len() as int)));
    assert forall|j: int| 0 <= j < nodes.len() implies (#[trigger] r[j]).log == log.push(e) by {
        if j == l {
            assert(r[j].log == ln.log);
        }
    }
}

/// Raft's election restriction: a node grants its vote exactly when the
/// request's term is not behind its own, it has not voted for another
/// candidate, and the candidate's log is at least as up to date as its own:
/// the candidate's last term is higher than that of the node's last entry,
/// or the same with a last index at least that entry's index.
pub proof fn law_vote_needs_up_to_date_log(n: RaftView, term: u64, c: Seq<char>, lli: usize, llt: u64)
    ensures
        (raft_on_request_vote(n, term, c, lli, llt).1 matches RaftMessageView::VoteResponse { vote_granted: true, .. }) <==> {
            &&& term >= n.current_term
            &&& (n.voted_for is None || n.voted_for == Some(c))
            &&& n.log.len() > 0 ==> (llt > n.log[n.log.len() - 1].term
                || (llt == n.log[n.log.len() - 1].term && lli + 1 >= n.log.len()))
        },
{
}

/// The commands of positions `from` up to `to` that the log holds, in order.
proof fn lemma_applied_commands(log: Seq<LogEntryView>, from: int, to: int)
    requires
        0 <= from <= to <= log.len(),
    ensures
        applied_commands(log, from, to).len() == to - from,
        forall|k: int| 0 <= k < to - from ==> #[trigger] applied_commands(log, from, to)[k] == log[from + k].command,
    decreases to - from,
{
    if from < to {
        lemma_applied_commands(log, from, to - 1);
    }
}

/// A leader commits on a majority: when the nodes holding its last entry,
/// itself included, outnumber the rest of its cluster (itself and its
/// peers), it commits through that entry and applies every command from its
/// last applied one on, in log order; without a majority nothing changes.
pub proof fn law_leader_commits_on_majority(n: RaftView, acks: int)
    requires
        n.log.len() <= usize::MAX,
        n.last_applied <= n.commit_index,
    ensures
        2 * acks > n.peers.len() + 1 && n.log.len() > n.commit_index ==> {
            &&& leader_commits(n, acks).commit_index == n.log.len()
            &&& leader_commits(n, acks).last_applied == n.log.len()
            &&& leader_commits(n, acks).log == n.log
            &&& leader_commits(n, acks).state_machine.len() == n.state_machine.len() + n.log.len() - n.last_applied
            &&& forall|k: int| 0 <= k < n.state_machine.len() ==> #[trigger] leader_commits(n, acks).state_machine[k] == n.state_machine[k]
            &&& forall|k: int| 0 <= k < n.log.len() - n.last_applied ==>
                #[trigger] leader_commits(n, acks).state_machine[n.state_machine.len() + k] == n.log[n.last_applied + k].command
        },
        2 * acks <= n.peers.len() + 1 ==> leader_commits(n, acks) == n,
{
    if 2 * acks > n.peers.len() + 1 && n.log.len() > n.commit_index {
        lemma_applied_commands(n.log, n.last_applied as int, n.log.len() as int);
    }
}

} // verus!
