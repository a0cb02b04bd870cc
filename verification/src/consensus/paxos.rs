//! Single-decree Paxos: proposers, acceptors and learners, and a simulated run.

use vstd::prelude::*;

verus! {

/// A numbered proposal, possibly carrying a value.
#[derive(Debug, Clone, PartialEq)]
pub struct Proposal {
    pub number: u64,
    pub value: Option<String>,
}

/// A proposal with its value as characters.
pub struct ProposalView {
    pub number: u64,
    pub value: Option<Seq<char>>,
}

pub open spec fn opt_str_view(o: Option<String>) -> Option<Seq<char>> {
    match o {
        Some(s) => Some(s@),
        None => None,
    }
}

pub open spec fn opt_proposal_view(o: Option<Proposal>) -> Option<ProposalView> {
    match o {
        Some(p) => Some(p@),
        None => None,
    }
}

impl View for Proposal {
    type V = ProposalView;

    open spec fn view(&self) -> ProposalView {
        ProposalView { number: self.number, value: opt_str_view(self.value) }
    }
}

pub fn copy_opt_string(o: &Option<String>) -> (r: Option<String>)
    ensures
        opt_str_view(r) == opt_str_view(*o),
{
    match o {
        Some(s) => Some(s.clone()),
        None => None,
    }
}

impl Proposal {
    /// A copy of this proposal.
    pub fn duplicate(&self) -> (r: Proposal)
        ensures
            r@ == self@,
    {
        Proposal { number: self.number, value: copy_opt_string(&self.value) }
    }
}

pub fn copy_opt_proposal(o: &Option<Proposal>) -> (r: Option<Proposal>)
    ensures
        opt_proposal_view(r) == opt_proposal_view(*o),
{
    match o {
        Some(p) => Some(p.duplicate()),
        None => None,
    }
}

/// The messages of the protocol.
#[derive(Debug, Clone, PartialEq)]
pub enum PaxosMessage {
    Prepare { proposal_number: u64, proposer_id: String },
    Promise { proposal_number: u64, accepted_proposal: Option<Proposal>, acceptor_id: String },
    Accept { proposal: Proposal, proposer_id: String },
    Accepted { proposal_number: u64, acceptor_id: String },
}

/// A message with its strings as characters.
pub enum MessageView {
    Prepare { proposal_number: u64, proposer_id: Seq<char> },
    Promise { proposal_number: u64, accepted_proposal: Option<ProposalView>, acceptor_id: Seq<char> },
    Accept { proposal: ProposalView, proposer_id: Seq<char> },
    Accepted { proposal_number: u64, acceptor_id: Seq<char> },
}

impl View for PaxosMessage {
    type V = MessageView;

    open spec fn view(&self) -> MessageView {
        match *self {
            PaxosMessage::Prepare { proposal_number, proposer_id } =>
                MessageView::Prepare { proposal_number, proposer_id: proposer_id@ },
            PaxosMessage::Promise { proposal_number, accepted_proposal, acceptor_id } =>
                MessageView::Promise {
                    proposal_number,
                    accepted_proposal: opt_proposal_view(accepted_proposal),
                    acceptor_id: acceptor_id@,
                },
            PaxosMessage::Accept { proposal, proposer_id } =>
                MessageView::Accept { proposal: proposal@, proposer_id: proposer_id@ },
            PaxosMessage::Accepted { proposal_number, acceptor_id } =>
                MessageView::Accepted { proposal_number, acceptor_id: acceptor_id@ },
        }
    }
}

pub open spec fn msgs_view(v: Seq<PaxosMessage>) -> Seq<MessageView> {
    v.map_values(|m: PaxosMessage| m@)
}

impl PaxosMessage {
    /// A copy of this message.
    pub fn duplicate(&self) -> (r: PaxosMessage)
        ensures
            r@ == self@,
    {
        match self {
            PaxosMessage::Prepare { proposal_number, proposer_id } =>
                PaxosMessage::Prepare { proposal_number: *proposal_number, proposer_id: proposer_id.clone() },
            PaxosMessage::Promise { proposal_number, accepted_proposal, acceptor_id } =>
                PaxosMessage::Promise {
                    proposal_number: *proposal_number,
                    accepted_proposal: copy_opt_proposal(accepted_proposal),
                    acceptor_id: acceptor_id.clone(),
                },
            PaxosMessage::Accept { proposal, proposer_id } =>
                PaxosMessage::Accept { proposal: proposal.duplicate(), proposer_id: proposer_id.clone() },
            PaxosMessage::Accepted { proposal_number, acceptor_id } =>
                PaxosMessage::Accepted { proposal_number: *proposal_number, acceptor_id: acceptor_id.clone() },
        }
    }
}

/// The acceptor's state: the highest number promised and the proposal accepted.
#[derive(Debug, Clone)]
pub struct AcceptorState {
    pub id: String,
    pub promised_number: u64,
    pub accepted_proposal: Option<Proposal>,
}

pub struct AcceptorView {
    pub id: Seq<char>,
    pub promised_number: u64,
    pub accepted_proposal: Option<ProposalView>,
}

impl View for AcceptorState {
    type V = AcceptorView;

    open spec fn view(&self) -> AcceptorView {
        AcceptorView {
            id: self.id@,
            promised_number: self.promised_number,
            accepted_proposal: opt_proposal_view(self.accepted_proposal),
        }
    }
}

/// An acceptor after a prepare numbered `n`, and its promise: it promises `n`
/// when `n` is above every earlier promise, and repeats its promise otherwise.
pub open spec fn acceptor_on_prepare(a: AcceptorView, n: u64) -> (AcceptorView, MessageView) {
    let promised = if n > a.promised_number { n } else { a.promised_number };
    (
        AcceptorView { promised_number: promised, ..a },
        MessageView::Promise { proposal_number: promised, accepted_proposal: a.accepted_proposal, acceptor_id: a.id },
    )
}

/// An acceptor after an accept of `p`: it accepts unless it promised a higher number.
pub open spec fn acceptor_on_accept(a: AcceptorView, p: ProposalView) -> (AcceptorView, bool) {
    if p.number >= a.promised_number {
        (AcceptorView { id: a.id, promised_number: p.number, accepted_proposal: Some(p) }, true)
    } else {
        (a, false)
    }
}

impl AcceptorState {
    /// A fresh acceptor: nothing promised, nothing accepted.
    pub fn new(id: String) -> (a: Self)
        ensures
            a@ == (AcceptorView { id: id@, promised_number: 0, accepted_proposal: None }),
    {
        AcceptorState { id, promised_number: 0, accepted_proposal: None }
    }

    /// Answers a prepare with a promise.
    pub fn receive_prepare(&mut self, proposal_number: u64) -> (m: PaxosMessage)
        ensures
            (final(self)@, m@) == acceptor_on_prepare(old(self)@, proposal_number),
    {
        if proposal_number > self.promised_number {
            self.promised_number = proposal_number;
            PaxosMessage::Promise {
                proposal_number,
                accepted_proposal: copy_opt_proposal(&self.accepted_proposal),
                acceptor_id: self.id.clone(),
            }
        } else {
            PaxosMessage::Promise {
                proposal_number: self.promised_number,
                accepted_proposal: copy_opt_proposal(&self.accepted_proposal),
                acceptor_id: self.id.clone(),
            }
        }
    }

    /// Accepts `proposal` unless a higher number was promised.
    pub fn receive_accept(&mut self, proposal: &Proposal) -> (b: bool)
        ensures
            (final(self)@, b) == acceptor_on_accept(old(self)@, proposal@),
    {
        if proposal.number >= self.promised_number {
            self.promised_number = proposal.number;
            self.accepted_proposal = Some(proposal.duplicate());
            true
        } else {
            false
        }
    }
}


/// Appends a copy of each message of `src` to `dst`.
pub fn append_copies(dst: &mut Vec<PaxosMessage>, src: &Vec<PaxosMessage>)
    ensures
        msgs_view(final(dst)@) == msgs_view(old(dst)@) + msgs_view(src@),
{
    let ghost start = msgs_view(dst@);
    let mut i: usize = 0;
    while i < src.len()
        invariant
            i <= src@.len(),
            msgs_view(dst@) == start + msgs_view(src@.take(i as int)),
        decreases src@.len() - i,
    {
        let ghost before = dst@;
        dst.push(src[i].duplicate());
        proof {
            assert(msgs_view(dst@) =~= msgs_view(before).push(src@[i as int]@));
            assert(msgs_view(src@.take(i as int + 1)) =~= msgs_view(src@.take(i as int)).push(src@[i as int]@));
        }
        i = i + 1;
    }
    proof {
        assert(src@.take(i as int) =~= src@);
    }
}

/// The proposer's state: its current proposal and the promises gathered for it.
#[derive(Debug, Clone)]
pub struct ProposerState {
    pub id: String,
    pub proposal_number: u64,
    pub proposed_value: Option<String>,
    pub promises_received: Vec<PaxosMessage>,
    pub acceptors: usize,
}

pub struct ProposerView {
    pub id: Seq<char>,
    pub proposal_number: u64,
    pub proposed_value: Option<Seq<char>>,
    pub promises_received: Seq<MessageView>,
    pub acceptors: usize,
}

impl View for ProposerState {
    type V = ProposerView;

    open spec fn view(&self) -> ProposerView {
        ProposerView {
            id: self.id@,
            proposal_number: self.proposal_number,
            proposed_value: opt_str_view(self.proposed_value),
            promises_received: msgs_view(self.promises_received@),
            acceptors: self.acceptors,
        }
    }
}

/// The number of promises a proposer waits for: a majority of the acceptors.
pub open spec fn quorum_of(acceptors: usize) -> int {
    acceptors as int / 2 + 1
}

/// Among the promises, the accepted proposal with the highest number (the
/// first one on a tie), if any promise carries one.
pub open spec fn highest_accepted(ps: Seq<MessageView>) -> Option<ProposalView>
    decreases ps.len(),
{
    if ps.len() == 0 {
        None
    } else {
        let h = highest_accepted(ps.drop_last());
        match ps.last() {
            MessageView::Promise { accepted_proposal: Some(p), .. } =>
                if h is None || p.number > h->0.number { Some(p) } else { h },
            _ => h,
        }
    }
}

/// The value a proposer asks to be accepted: the value of the highest accepted
/// proposal among the promises, else its own value, else the empty string.
pub open spec fn value_to_propose(ps: Seq<MessageView>, own: Option<Seq<char>>) -> Seq<char> {
    let fallback = match own {
        Some(v) => v,
        None => Seq::<char>::empty(),
    };
    match highest_accepted(ps) {
        Some(h) => match h.value {
            Some(v) => v,
            None => fallback,
        },
        None => fallback,
    }
}

/// A proposer starting a new proposal of `value`, and its prepare message.
pub open spec fn proposer_prepare(p: ProposerView, value: Seq<char>) -> (ProposerView, MessageView) {
    let n = (p.proposal_number + 1) as u64;
    (
        ProposerView { proposal_number: n, proposed_value: Some(value), promises_received: Seq::empty(), ..p },
        MessageView::Prepare { proposal_number: n, proposer_id: p.id },
    )
}

/// A proposer after one more promise; once a majority has promised, it asks
/// for its proposal to be accepted.
pub open spec fn proposer_on_promise(p: ProposerView, m: MessageView) -> (ProposerView, Option<MessageView>) {
    let ps = p.promises_received.push(m);
    if ps.len() >= quorum_of(p.acceptors) {
        let v = value_to_propose(ps, p.proposed_value);
        (
            ProposerView { promises_received: ps, proposed_value: Some(v), ..p },
            Some(MessageView::Accept {
                proposal: ProposalView { number: p.proposal_number, value: Some(v) },
                proposer_id: p.id,
            }),
        )
    } else {
        (ProposerView { promises_received: ps, ..p }, None)
    }
}

impl ProposerState {
    /// A proposer that has proposed nothing yet.
    pub fn new(id: String, acceptors: usize) -> (p: Self)
        ensures
            p@ == (ProposerView {
                id: id@,
                proposal_number: 0,
                proposed_value: None,
                promises_received: Seq::empty(),
                acceptors,
            }),
    {
        let p = ProposerState {
            id,
            proposal_number: 0,
            proposed_value: None,
            promises_received: Vec::new(),
            acceptors,
        };
        proof {
            assert(msgs_view(p.promises_received@) =~= Seq::<MessageView>::empty());
        }
        p
    }

    /// Starts a new proposal of `value` with the next number.
    pub fn prepare(&mut self, value: String) -> (m: PaxosMessage)
        requires
            old(self).proposal_number < u64::MAX,
        ensures
            (final(self)@, m@) == proposer_prepare(old(self)@, value@),
    {
        self.proposal_number = self.proposal_number + 1;
        self.proposed_value = Some(value);
        self.promises_received.clear();
        proof {
            assert(msgs_view(self.promises_received@) =~= Seq::<MessageView>::empty());
        }
        PaxosMessage::Prepare { proposal_number: self.proposal_number, proposer_id: self.id.clone() }
    }

    /// Records a promise; with a majority of promises, returns the accept request.
    pub fn receive_promise(&mut self, msg: &PaxosMessage) -> (r: Option<PaxosMessage>)
        ensures
            final(self)@ == proposer_on_promise(old(self)@, msg@).0,
            r matches Some(a) ==> proposer_on_promise(old(self)@, msg@).1 == Some(a@),
            r is None ==> proposer_on_promise(old(self)@, msg@).1 is None,
    {
        let ghost before = self.promises_received@;
        self.promises_received.push(msg.duplicate());
        proof {
            assert(msgs_view(self.promises_received@) =~= msgs_view(before).push(msg@));
        }
        let quorum = self.acceptors / 2 + 1;
        if self.promises_received.len() >= quorum {
            let mut highest: Option<Proposal> = None;
            let mut i: usize = 0;
            while i < self.promises_received.len()
                invariant
                    i <= self.promises_received@.len(),
                    opt_proposal_view(highest) == highest_accepted(msgs_view(self.promises_received@.take(i as int))),
                decreases self.promises_received@.len() - i,
            {
                proof {
                    let t = self.promises_received@.take(i as int + 1);
                    assert(msgs_view(t).drop_last() =~= msgs_view(self.promises_received@.take(i as int)));
                    assert(msgs_view(t).last() == self.promises_received@[i as int]@);
                }
                match &self.promises_received[i] {
                    PaxosMessage::Promise { accepted_proposal: Some(prop), .. } => {
                        let better = match &highest {
                            None => true,
                            Some(h) => prop.number > h.number,
                        };
                        if better {
                            highest = Some(prop.duplicate());
                        }
                    },
                    _ => {},
                }
                i = i + 1;
            }
            proof {
                assert(self.promises_received@.take(i as int) =~= self.promises_received@);
            }
            let fallback = match &self.proposed_value {
                Some(v) => v.clone(),
                None => String::new(),
            };
            let value = match highest {
                Some(h) => match h.value {
                    Some(v) => v,
                    None => fallback,
                },
                None => fallback,
            };
            self.proposed_value = Some(value.clone());
            Some(PaxosMessage::Accept {
                proposal: Proposal { number: self.proposal_number, value: Some(value) },
                proposer_id: self.id.clone(),
            })
        } else {
            None
        }
    }
}


/// A node that proposes, accepts and learns.
#[derive(Debug, Clone)]
pub struct PaxosNode {
    pub proposer: ProposerState,
    pub acceptor: AcceptorState,
    pub learned_value: Option<String>,
    pub messages: Vec<PaxosMessage>,
}

pub struct NodeView {
    pub proposer: ProposerView,
    pub acceptor: AcceptorView,
    pub learned_value: Option<Seq<char>>,
    pub messages: Seq<MessageView>,
}

impl View for PaxosNode {
    type V = NodeView;

    open spec fn view(&self) -> NodeView {
        NodeView {
            proposer: self.proposer@,
            acceptor: self.acceptor@,
            learned_value: opt_str_view(self.learned_value),
            messages: msgs_view(self.messages@),
        }
    }
}

pub open spec fn nodes_view(v: Seq<PaxosNode>) -> Seq<NodeView> {
    v.map_values(|n: PaxosNode| n@)
}

/// The replies of a node to one message, before they are recorded.
pub open spec fn node_step(n: NodeView, m: MessageView) -> (NodeView, Seq<MessageView>) {
    match m {
        MessageView::Prepare { proposal_number, .. } => {
            let (a, reply) = acceptor_on_prepare(n.acceptor, proposal_number);
            (NodeView { acceptor: a, ..n }, seq![reply])
        },
        MessageView::Accept { proposal, .. } => {
            let (a, ok) = acceptor_on_accept(n.acceptor, proposal);
            if ok {
                (
                    NodeView { acceptor: a, ..n },
                    seq![MessageView::Accepted { proposal_number: proposal.number, acceptor_id: a.id }],
                )
            } else {
                (NodeView { acceptor: a, ..n }, Seq::empty())
            }
        },
        MessageView::Promise { .. } => {
            let (p, out) = proposer_on_promise(n.proposer, m);
            match out {
                Some(a) => (NodeView { proposer: p, ..n }, seq![a]),
                None => (NodeView { proposer: p, ..n }, Seq::empty()),
            }
        },
        MessageView::Accepted { .. } => {
            if n.learned_value is None && n.proposer.proposed_value is Some {
                (NodeView { learned_value: n.proposer.proposed_value, ..n }, Seq::empty())
            } else {
                (n, Seq::empty())
            }
        },
    }
}

/// A node after receiving one message, and its replies, which it also records.
pub open spec fn node_receive(n: NodeView, m: MessageView) -> (NodeView, Seq<MessageView>) {
    let (n2, replies) = node_step(n, m);
    (NodeView { messages: n2.messages + replies, ..n2 }, replies)
}

/// The nodes after `msg` is delivered, in order, to those among the first `i`
/// other than `skip`, and all their replies in that order.
pub open spec fn deliver_to_all(nodes: Seq<NodeView>, skip: int, msg: MessageView, i: int) -> (Seq<NodeView>, Seq<MessageView>)
    decreases i,
{
    if i <= 0 {
        (nodes, Seq::empty())
    } else {
        let (ns, rs) = deliver_to_all(nodes, skip, msg, i - 1);
        if i - 1 == skip || i - 1 >= ns.len() {
            (ns, rs)
        } else {
            let (n2, r2) = node_receive(ns[i - 1], msg);
            (ns.update(i - 1, n2), rs + r2)
        }
    }
}

/// Each message in turn delivered to all nodes other than `skip`.
pub open spec fn deliver_each(nodes: Seq<NodeView>, skip: int, msgs: Seq<MessageView>) -> (Seq<NodeView>, Seq<MessageView>)
    decreases msgs.len(),
{
    if msgs.len() == 0 {
        (nodes, Seq::empty())
    } else {
        let (ns, rs) = deliver_each(nodes, skip, msgs.drop_last());
        let (ns2, rs2) = deliver_to_all(ns, skip, msgs.last(), ns.len() as int);
        (ns2, rs + rs2)
    }
}

/// One node receiving each message in turn.
pub open spec fn receive_each(n: NodeView, msgs: Seq<MessageView>) -> (NodeView, Seq<MessageView>)
    decreases msgs.len(),
{
    if msgs.len() == 0 {
        (n, Seq::empty())
    } else {
        let (n1, r1) = receive_each(n, msgs.drop_last());
        let (n2, r2) = node_receive(n1, msgs.last());
        (n2, r1 + r2)
    }
}

/// A node starting a proposal of `value`.
pub open spec fn node_propose(n: NodeView, value: Seq<char>) -> (NodeView, MessageView) {
    let (p, m) = proposer_prepare(n.proposer, value);
    (NodeView { proposer: p, ..n }, m)
}

/// The nodes after a full simulated round of Paxos in which node `p`
/// proposes `value`: prepare to the others, promises back to `p`, accept
/// requests to the others, and the acceptances to every node.
pub open spec fn paxos_run(nodes: Seq<NodeView>, p: int, value: Seq<char>) -> Seq<NodeView> {
    let (pn, prepare) = node_propose(nodes[p], value);
    let n1 = nodes.update(p, pn);
    let (n2, promises) = deliver_to_all(n1, p, prepare, n1.len() as int);
    let (pn2, accepts) = receive_each(n2[p], promises);
    let n3 = n2.update(p, pn2);
    let (n4, accepted) = deliver_each(n3, p, accepts);
    deliver_each(n4, n4.len() as int, accepted).0
}

pub proof fn lemma_deliver_to_all_len(nodes: Seq<NodeView>, skip: int, msg: MessageView, i: int)
    ensures
        deliver_to_all(nodes, skip, msg, i).0.len() == nodes.len(),
    decreases i,
{
    if i > 0 {
        lemma_deliver_to_all_len(nodes, skip, msg, i - 1);
    }
}

pub proof fn lemma_deliver_each_len(nodes: Seq<NodeView>, skip: int, msgs: Seq<MessageView>)
    ensures
        deliver_each(nodes, skip, msgs).0.len() == nodes.len(),
    decreases msgs.len(),
{
    if msgs.len() > 0 {
        lemma_deliver_each_len(nodes, skip, msgs.drop_last());
        let ns = deliver_each(nodes, skip, msgs.drop_last()).0;
        lemma_deliver_to_all_len(ns, skip, msgs.last(), ns.len() as int);
    }
}

impl PaxosNode {
    /// A fresh node among `total_acceptors` acceptors.
    pub fn new(id: String, total_acceptors: usize) -> (n: Self)
        ensures
            n@ == (NodeView {
                proposer: ProposerView {
                    id: id@,
                    proposal_number: 0,
                    proposed_value: None,
                    promises_received: Seq::empty(),
                    acceptors: total_acceptors,
                },
                acceptor: AcceptorView { id: id@, promised_number: 0, accepted_proposal: None },
                learned_value: None,
                messages: Seq::empty(),
            }),
    {
        let n = PaxosNode {
            proposer: ProposerState::new(id.clone(), total_acceptors),
            acceptor: AcceptorState::new(id),
            learned_value: None,
            messages: Vec::new(),
        };
        proof {
            assert(msgs_view(n.messages@) =~= Seq::<MessageView>::empty());
        }
        n
    }

    /// Starts a proposal of `value`.
    pub fn propose(&mut self, value: String) -> (m: PaxosMessage)
        requires
            old(self).proposer.proposal_number < u64::MAX,
        ensures
            (final(self)@, m@) == node_propose(old(self)@, value@),
    {
        self.proposer.prepare(value)
    }

    /// Handles one message and returns the replies, which it also records.
    pub fn receive(&mut self, msg: &PaxosMessage) -> (replies: Vec<PaxosMessage>)
        ensures
            (final(self)@, msgs_view(replies@)) == node_receive(old(self)@, msg@),
    {
        let mut responses: Vec<PaxosMessage> = Vec::new();
        match msg {
            PaxosMessage::Prepare { proposal_number, .. } => {
                let resp = self.acceptor.receive_prepare(*proposal_number);
                responses.push(resp);
            },
            PaxosMessage::Accept { proposal, .. } => {
                if self.acceptor.receive_accept(proposal) {
                    responses.push(PaxosMessage::Accepted {
                        proposal_number: proposal.number,
                        acceptor_id: self.acceptor.id.clone(),
                    });
                }
            },
            PaxosMessage::Promise { .. } => {
                if let Some(accept_msg) = self.proposer.receive_promise(msg) {
                    responses.push(accept_msg);
                }
            },
            PaxosMessage::Accepted { .. } => {
                if self.learned_value.is_none() {
                    if let Some(v) = &self.proposer.proposed_value {
                        self.learned_value = Some(v.clone());
                    }
                }
            },
        }
        proof {
            let (n2, r) = node_step(old(self)@, msg@);
            assert(msgs_view(responses@) =~= r);
        }
        append_copies(&mut self.messages, &responses);
        responses
    }
}

/// Delivers `msg` to every node but `skip` (none when `skip` is out of range),
/// in order, and gathers the replies.
fn deliver_exec(nodes: &mut Vec<PaxosNode>, skip: usize, msg: &PaxosMessage) -> (replies: Vec<PaxosMessage>)
    ensures
        (nodes_view(final(nodes)@), msgs_view(replies@))
            == deliver_to_all(nodes_view(old(nodes)@), skip as int, msg@, old(nodes)@.len() as int),
        final(nodes)@.len() == old(nodes)@.len(),
{
    let ghost start = nodes_view(nodes@);
    let mut replies: Vec<PaxosMessage> = Vec::new();
    let mut i: usize = 0;
    proof {
        assert(msgs_view(replies@) =~= Seq::<MessageView>::empty());
    }
    while i < nodes.len()
        invariant
            i <= nodes@.len(),
            nodes@.len() == start.len(),
            (nodes_view(nodes@), msgs_view(replies@)) == deliver_to_all(start, skip as int, msg@, i as int),
        decreases nodes@.len() - i,
    {
        proof {
            lemma_deliver_to_all_len(start, skip as int, msg@, i as int);
        }
        if i != skip {
            let ghost before = nodes@;
            let mut slot = PaxosNode::new(String::new(), 0);
            nodes.set_and_swap(i, &mut slot);
            let mut r = slot.receive(msg);
            nodes.set_and_swap(i, &mut slot);
            let ghost before_replies = replies@;
            replies.append(&mut r);
            proof {
                assert(nodes@ == before.update(i as int, nodes@[i as int]));
                assert(nodes_view(nodes@) =~= nodes_view(before).update(i as int, nodes@[i as int]@));
                assert(msgs_view(replies@) =~= msgs_view(before_replies) + msgs_view(replies@.subrange(before_replies.len() as int, replies@.len() as int)));
            }
        }
        i = i + 1;
    }
    replies
}


/// Delivers each message in turn to every node but `skip`, gathering the replies.
fn deliver_each_exec(nodes: &mut Vec<PaxosNode>, skip: usize, msgs: &Vec<PaxosMessage>) -> (replies: Vec<PaxosMessage>)
    ensures
        (nodes_view(final(nodes)@), msgs_view(replies@)) == deliver_each(nodes_view(old(nodes)@), skip as int, msgs_view(msgs@)),
        final(nodes)@.len() == old(nodes)@.len(),
{
    let ghost start = nodes_view(nodes@);
    let mut replies: Vec<PaxosMessage> = Vec::new();
    let mut j: usize = 0;
    proof {
        assert(msgs_view(replies@) =~= Seq::<MessageView>::empty());
        assert(msgs_view(msgs@.take(0)) =~= Seq::<MessageView>::empty());
    }
    while j < msgs.len()
        invariant
            j <= msgs@.len(),
            nodes@.len() == start.len(),
            (nodes_view(nodes@), msgs_view(replies@)) == deliver_each(start, skip as int, msgs_view(msgs@.take(j as int))),
        decreases msgs@.len() - j,
    {
        proof {
            let t = msgs_view(msgs@.take(j as int + 1));
            assert(t.drop_last() =~= msgs_view(msgs@.take(j as int)));
            assert(t.last() == msgs@[j as int]@);
            assert(nodes_view(nodes@).len() == nodes@.len());
        }
        let mut r = deliver_exec(nodes, skip, &msgs[j]);
        let ghost before_replies = replies@;
        replies.append(&mut r);
        proof {
            assert(msgs_view(replies@) =~= msgs_view(before_replies) + msgs_view(replies@.subrange(before_replies.len() as int, replies@.len() as int)));
        }
        j = j + 1;
    }
    proof {
        assert(msgs@.take(j as int) =~= msgs@);
    }
    replies
}

/// One node receives each message in turn.
fn receive_each_exec(node: &mut PaxosNode, msgs: &Vec<PaxosMessage>) -> (replies: Vec<PaxosMessage>)
    ensures
        (final(node)@, msgs_view(replies@)) == receive_each(old(node)@, msgs_view(msgs@)),
{
    let ghost start = node@;
    let mut replies: Vec<PaxosMessage> = Vec::new();
    let mut j: usize = 0;
    proof {
        assert(msgs_view(replies@) =~= Seq::<MessageView>::empty());
        assert(msgs_view(msgs@.take(0)) =~= Seq::<MessageView>::empty());
    }
    while j < msgs.len()
        invariant
            j <= msgs@.len(),
            (node@, msgs_view(replies@)) == receive_each(start, msgs_view(msgs@.take(j as int))),
        decreases msgs@.len() - j,
    {
        proof {
            let t = msgs_view(msgs@.take(j as int + 1));
            assert(t.drop_last() =~= msgs_view(msgs@.take(j as int)));
            assert(t.last() == msgs@[j as int]@);
        }
        let mut r = node.receive(&msgs[j]);
        let ghost before_replies = replies@;
        replies.append(&mut r);
        proof {
            assert(msgs_view(replies@) =~= msgs_view(before_replies) + msgs_view(replies@.subrange(before_replies.len() as int, replies@.len() as int)));
        }
        j = j + 1;
    }
    proof {
        assert(msgs@.take(j as int) =~= msgs@);
    }
    replies
}

/// Simulates a full round of Paxos in which node `proposer_idx` proposes
/// `value` to all the others.
pub fn run_paxos(nodes: &mut Vec<PaxosNode>, proposer_idx: usize, value: &str)
    requires
        proposer_idx < old(nodes)@.len(),
        old(nodes)@[proposer_idx as int].proposer.proposal_number < u64::MAX,
    ensures
        final(nodes)@.len() == old(nodes)@.len(),
        nodes_view(final(nodes)@) == paxos_run(nodes_view(old(nodes)@), proposer_idx as int, value@),
{
    let ghost start = nodes_view(nodes@);
    let n = nodes.len();
    let mut slot = PaxosNode::new(String::new(), 0);
    nodes.set_and_swap(proposer_idx, &mut slot);
    let prepare = slot.propose(value.to_owned());
    nodes.set_and_swap(proposer_idx, &mut slot);
    proof {
        assert(nodes_view(nodes@) =~= start.update(proposer_idx as int, nodes@[proposer_idx as int]@));
    }
    let ghost n1 = nodes_view(nodes@);

    // Phase 1: the prepare goes to every other node.
    let promises = deliver_exec(nodes, proposer_idx, &prepare);
    let ghost n2 = nodes_view(nodes@);

    // Phase 1b: the proposer gathers the promises.
    let mut slot = PaxosNode::new(String::new(), 0);
    nodes.set_and_swap(proposer_idx, &mut slot);
    let accept_msgs = receive_each_exec(&mut slot, &promises);
    nodes.set_and_swap(proposer_idx, &mut slot);
    proof {
        assert(nodes_view(nodes@) =~= n2.update(proposer_idx as int, nodes@[proposer_idx as int]@));
    }

    // Phase 2: each accept request goes to every other node.
    let accepted_msgs = deliver_each_exec(nodes, proposer_idx, &accept_msgs);

    // Phase 2b: every node hears each acceptance.
    let _ = deliver_each_exec(nodes, n, &accepted_msgs);
}

/// A node as `PaxosNode::new` makes it: nothing proposed, promised, accepted
/// or learned.
pub open spec fn fresh_node(n: NodeView) -> bool {
    &&& n.proposer.proposal_number == 0
    &&& n.proposer.proposed_value is None
    &&& n.proposer.promises_received.len() == 0
    &&& n.acceptor.promised_number == 0
    &&& n.acceptor.accepted_proposal is None
    &&& n.learned_value is None
}

/// Every message of `s` satisfies `out`.
pub open spec fn all_msgs(s: Seq<MessageView>, out: spec_fn(MessageView) -> bool) -> bool {
    forall|k: int| 0 <= k < s.len() ==> out(#[trigger] s[k])
}

/// How many of the first `i` nodes are not `skip`.
pub open spec fn others_before(skip: int, i: int) -> int {
    if 0 <= skip < i { i - 1 } else { i }
}

/// Delivering one message: each node reached is taken to `post`, the others
/// are untouched, and the replies are gathered in order.
proof fn lemma_deliver_to_all_post(
    nodes: Seq<NodeView>,
    skip: int,
    msg: MessageView,
    i: int,
    post: spec_fn(int, NodeView) -> bool,
    out: spec_fn(MessageView) -> bool,
    one: bool,
)
    requires
        0 <= i <= nodes.len(),
        forall|j: int| #![trigger nodes[j]] 0 <= j < i && j != skip ==> {
            &&& post(j, node_receive(nodes[j], msg).0)
            &&& node_receive(nodes[j], msg).1.len() == (if one { 1int } else { 0int })
            &&& all_msgs(node_receive(nodes[j], msg).1, out)
        },
    ensures
        deliver_to_all(nodes, skip, msg, i).0.len() == nodes.len(),
        forall|j: int| #![trigger deliver_to_all(nodes, skip, msg, i).0[j]] 0 <= j < nodes.len() ==>
            if j < i && j != skip {
                post(j, deliver_to_all(nodes, skip, msg, i).0[j])
            } else {
                deliver_to_all(nodes, skip, msg, i).0[j] == nodes[j]
            },
        all_msgs(deliver_to_all(nodes, skip, msg, i).1, out),
        deliver_to_all(nodes, skip, msg, i).1.len() == (if one { others_before(skip, i) } else { 0 }),
    decreases i,
{
    if i > 0 {
        lemma_deliver_to_all_post(nodes, skip, msg, i - 1, post, out, one);
        let (ns, rs) = deliver_to_all(nodes, skip, msg, i - 1);
        if i - 1 != skip {
            assert(ns[i - 1] == nodes[i - 1]);
            let (n2, r2) = node_receive(ns[i - 1], msg);
            let (ns2, rs2) = deliver_to_all(nodes, skip, msg, i);
            assert(ns2 == ns.update(i - 1, n2));
            assert forall|k: int| 0 <= k < rs2.len() implies out(#[trigger] rs2[k]) by {
                if k < rs.len() {
                    assert(rs2[k] == rs[k]);
                } else {
                    assert(rs2[k] == r2[k - rs.len()]);
                }
            }
        }
    }
}

/// Delivering each message in turn: every node reached keeps `inv`, reaches
/// `post` once at least one message came, and the replies are gathered.
proof fn lemma_deliver_each_inv(
    nodes: Seq<NodeView>,
    skip: int,
    msgs: Seq<MessageView>,
    inv: spec_fn(int, NodeView) -> bool,
    post: spec_fn(int, NodeView) -> bool,
    okm: spec_fn(MessageView) -> bool,
    out: spec_fn(MessageView) -> bool,
    one: bool,
)
    requires
        forall|j: int| #![trigger nodes[j]] 0 <= j < nodes.len() && j != skip ==> inv(j, nodes[j]),
        all_msgs(msgs, okm),
        forall|j: int, n: NodeView| #[trigger] post(j, n) ==> inv(j, n),
        forall|j: int, n: NodeView, m: MessageView| #![trigger inv(j, n), okm(m)]
            okm(m) && j != skip && inv(j, n) ==> {
                &&& post(j, node_receive(n, m).0)
                &&& node_receive(n, m).1.len() == (if one { 1int } else { 0int })
                &&& all_msgs(node_receive(n, m).1, out)
            },
    ensures
        deliver_each(nodes, skip, msgs).0.len() == nodes.len(),
        forall|j: int| #![trigger deliver_each(nodes, skip, msgs).0[j]] 0 <= j < nodes.len() ==>
            if j != skip {
                inv(j, deliver_each(nodes, skip, msgs).0[j])
                    && (msgs.len() >= 1 ==> post(j, deliver_each(nodes, skip, msgs).0[j]))
            } else {
                deliver_each(nodes, skip, msgs).0[j] == nodes[j]
            },
        all_msgs(deliver_each(nodes, skip, msgs).1, out),
        one && others_before(skip, nodes.len() as int) >= 1 ==> deliver_each(nodes, skip, msgs).1.len() >= msgs.len(),
    decreases msgs.len(),
{
    if msgs.len() > 0 {
        let d = msgs.drop_last();
        assert forall|k: int| 0 <= k < d.len() implies okm(#[trigger] d[k]) by {
            assert(d[k] == msgs[k]);
        }
        lemma_deliver_each_inv(nodes, skip, d, inv, post, okm, out, one);
        let (ns, rs) = deliver_each(nodes, skip, d);
        let m = msgs.last();
        assert(okm(m));
        assert forall|j: int| #![trigger ns[j]] 0 <= j < ns.len() && j != skip implies {
            &&& post(j, node_receive(ns[j], m).0)
            &&& node_receive(ns[j], m).1.len() == (if one { 1int } else { 0int })
            &&& all_msgs(node_receive(ns[j], m).1, out)
        } by {
            assert(inv(j, ns[j]));
        }
        lemma_deliver_to_all_post(ns, skip, m, ns.len() as int, post, out, one);
        let (ns2, rs2) = deliver_to_all(ns, skip, m, ns.len() as int);
        assert forall|j: int| #![trigger ns2[j]] 0 <= j < nodes.len() && j == skip implies ns2[j] == nodes[j] by {
            assert(ns[j] == nodes[j]);
        }
        let all = rs + rs2;
        assert forall|k: int| 0 <= k < all.len() implies out(#[trigger] all[k]) by {
            if k < rs.len() {
                assert(all[k] == rs[k]);
            } else {
                assert(all[k] == rs2[k - rs.len()]);
            }
        }
    }
}

/// Among promises that carry no accepted proposal, none is the highest.
proof fn lemma_highest_accepted_none(ps: Seq<MessageView>)
    requires
        forall|k: int| 0 <= k < ps.len() ==> #[trigger] ps[k] matches MessageView::Promise { accepted_proposal: None, .. },
    ensures
        highest_accepted(ps) is None,
    decreases ps.len(),
{
    if ps.len() > 0 {
        let d = ps.drop_last();
        assert forall|k: int| 0 <= k < d.len() implies #[trigger] d[k] matches MessageView::Promise { accepted_proposal: None, .. } by {
            assert(d[k] == ps[k]);
        }
        lemma_highest_accepted_none(d);
        assert(ps[ps.len() - 1] == ps.last());
    }
}

/// A proposer gathering promises that carry no accepted proposal keeps its
/// own value, and from the quorum-th promise on answers each with an accept
/// request for its proposal.
proof fn lemma_gather_promises(n: NodeView, ms: Seq<MessageView>, value: Seq<char>)
    requires
        n.proposer.promises_received.len() == 0,
        n.proposer.proposed_value == Some(value),
        forall|k: int| 0 <= k < ms.len() ==> #[trigger] ms[k] matches MessageView::Promise { accepted_proposal: None, .. },
    ensures
        receive_each(n, ms).0.proposer.promises_received == ms,
        receive_each(n, ms).0.proposer.proposed_value == Some(value),
        receive_each(n, ms).0.proposer.proposal_number == n.proposer.proposal_number,
        receive_each(n, ms).0.proposer.acceptors == n.proposer.acceptors,
        receive_each(n, ms).0.proposer.id == n.proposer.id,
        receive_each(n, ms).0.acceptor == n.acceptor,
        receive_each(n, ms).0.learned_value == n.learned_value,
        all_msgs(receive_each(n, ms).1, |m: MessageView| m == MessageView::Accept {
            proposal: ProposalView { number: n.proposer.proposal_number, value: Some(value) },
            proposer_id: n.proposer.id,
        }),
        receive_each(n, ms).1.len() == (if ms.len() >= quorum_of(n.proposer.acceptors) {
            ms.len() - quorum_of(n.proposer.acceptors) + 1
        } else {
            0
        }),
    decreases ms.len(),
{
    if ms.len() > 0 {
        let d = ms.drop_last();
        assert forall|k: int| 0 <= k < d.len() implies #[trigger] d[k] matches MessageView::Promise { accepted_proposal: None, .. } by {
            assert(d[k] == ms[k]);
        }
        lemma_gather_promises(n, d, value);
        let (n1, r1) = receive_each(n, d);
        let m = ms.last();
        assert(ms[ms.len() - 1] == m);
        assert(n1.proposer.promises_received.push(m) =~= ms);
        lemma_highest_accepted_none(ms);
        let (n2, r2) = node_receive(n1, m);
        let all = r1 + r2;
        let target = MessageView::Accept {
            proposal: ProposalView { number: n.proposer.proposal_number, value: Some(value) },
            proposer_id: n.proposer.id,
        };
        assert forall|k: int| 0 <= k < all.len() implies #[trigger] all[k] == target by {
            if k < r1.len() {
                assert(all[k] == r1[k]);
            } else {
                assert(all[k] == r2[k - r1.len()]);
            }
        }
    }
}

/// A full round of Paxos on a fresh cluster of at least three nodes, with
/// the proposer counting every node as an acceptor: the proposer learns its
/// value, no other node learns anything, so no node learns another value,
/// and every other node has accepted the proposal.
pub proof fn law_fresh_paxos_run(nodes: Seq<NodeView>, p: int, value: Seq<char>)
    requires
        0 <= p < nodes.len(),
        nodes.len() >= 3,
        nodes[p].proposer.acceptors == nodes.len(),
        forall|i: int| 0 <= i < nodes.len() ==> #[trigger] fresh_node(nodes[i]),
    ensures
        paxos_run(nodes, p, value).len() == nodes.len(),
        paxos_run(nodes, p, value)[p].learned_value == Some(value),
        forall|i: int| 0 <= i < nodes.len() && i != p ==> (#[trigger] paxos_run(nodes, p, value)[i]).learned_value is None,
        forall|i: int| 0 <= i < nodes.len() && (#[trigger] paxos_run(nodes, p, value)[i]).learned_value is Some ==>
            paxos_run(nodes, p, value)[i].learned_value == Some(value),
        forall|i: int| 0 <= i < nodes.len() && i != p ==> (#[trigger] paxos_run(nodes, p, value)[i]).acceptor.accepted_proposal
            == Some(ProposalView { number: 1, value: Some(value) }),
        forall|i: int| 0 <= i < nodes.len() && i != p ==> (#[trigger] paxos_run(nodes, p, value)[i]).acceptor.promised_number == 1,
        forall|i: int| 0 <= i < nodes.len() && i != p ==> (#[trigger] paxos_run(nodes, p, value)[i]).proposer == nodes[i].proposer,
        paxos_run(nodes, p, value)[p].acceptor == nodes[p].acceptor,
        paxos_run(nodes, p, value)[p].proposer.proposed_value == Some(value),
{
    let len = nodes.len() as int;
    let pid = nodes[p].proposer.id;
    let prop = ProposalView { number: 1, value: Some(value) };
    assert(fresh_node(nodes[p]));
    let (pn, prepare) = node_propose(nodes[p], value);
    let n1 = nodes.update(p, pn);

    // Every other node promises the first proposal, carrying no accepted one.
    let post_b = |j: int, n: NodeView| {
        &&& n.acceptor.promised_number == 1
        &&& n.acceptor.accepted_proposal is None
        &&& n.proposer == nodes[j].proposer
        &&& n.learned_value is None
    };
    let out_b = |m: MessageView| m matches MessageView::Promise { accepted_proposal: None, .. };
    assert forall|j: int| #![trigger n1[j]] 0 <= j < len && j != p implies {
        &&& post_b(j, node_receive(n1[j], prepare).0)
        &&& node_receive(n1[j], prepare).1.len() == 1int
        &&& all_msgs(node_receive(n1[j], prepare).1, out_b)
    } by {
        assert(fresh_node(nodes[j]));
        assert(n1[j] == nodes[j]);
        let r = node_receive(n1[j], prepare).1;
        assert forall|k: int| 0 <= k < r.len() implies out_b(#[trigger] r[k]) by {}
    }
    lemma_deliver_to_all_post(n1, p, prepare, len, post_b, out_b, true);
    let (n2, promises) = deliver_to_all(n1, p, prepare, len);
    assert(n2[p] == pn);
    assert forall|k: int| 0 <= k < promises.len() implies #[trigger] promises[k] matches MessageView::Promise { accepted_proposal: None, .. } by {
        assert(out_b(promises[k]));
    }

    // The proposer gathers them and asks for its proposal to be accepted.
    lemma_gather_promises(pn, promises, value);
    let (pn2, accepts) = receive_each(n2[p], promises);
    let n3 = n2.update(p, pn2);
    let accept = MessageView::Accept { proposal: prop, proposer_id: pid };
    assert(accepts.len() >= 1);

    // Every other node accepts it.
    let inv_d = |j: int, n: NodeView| {
        &&& n.acceptor.promised_number == 1
        &&& n.proposer == nodes[j].proposer
        &&& n.learned_value is None
    };
    let post_d = |j: int, n: NodeView| {
        &&& n.acceptor.promised_number == 1
        &&& n.proposer == nodes[j].proposer
        &&& n.learned_value is None
        &&& n.acceptor.accepted_proposal == Some(prop)
    };
    let okm_d = |m: MessageView| m == accept;
    let out_d = |m: MessageView| m is Accepted;
    assert forall|j: int| #![trigger n3[j]] 0 <= j < len && j != p implies inv_d(j, n3[j]) by {
        assert(n3[j] == n2[j]);
        assert(post_b(j, n2[j]));
    }
    assert forall|k: int| 0 <= k < accepts.len() implies okm_d(#[trigger] accepts[k]) by {}
    assert forall|j: int, n: NodeView, m: MessageView| #![trigger inv_d(j, n), okm_d(m)]
        okm_d(m) && j != p && inv_d(j, n) implies {
            &&& post_d(j, node_receive(n, m).0)
            &&& node_receive(n, m).1.len() == 1int
            &&& all_msgs(node_receive(n, m).1, out_d)
        } by {
        let r = node_receive(n, m).1;
        assert forall|k: int| 0 <= k < r.len() implies out_d(#[trigger] r[k]) by {}
    }
    lemma_deliver_each_inv(n3, p, accepts, inv_d, post_d, okm_d, out_d, true);
    let (n4, accepted) = deliver_each(n3, p, accepts);
    assert(accepted.len() >= 1);
    assert(n4[p] == pn2);

    // Every node hears the acceptances; only the proposer has a value to learn.
    let inv_e = |j: int, n: NodeView| if j == p {
        &&& n.proposer.proposed_value == Some(value)
        &&& n.proposer.proposal_number == 1
        &&& n.proposer.acceptors == nodes[p].proposer.acceptors
        &&& n.acceptor == nodes[p].acceptor
        &&& (n.learned_value is None || n.learned_value == Some(value))
    } else {
        &&& n.proposer == nodes[j].proposer
        &&& n.proposer.proposed_value is None
        &&& n.learned_value is None
        &&& n.acceptor.promised_number == 1
        &&& n.acceptor.accepted_proposal == Some(prop)
    };
    let post_e = |j: int, n: NodeView| if j == p {
        &&& n.proposer.proposed_value == Some(value)
        &&& n.proposer.proposal_number == 1
        &&& n.proposer.acceptors == nodes[p].proposer.acceptors
        &&& n.acceptor == nodes[p].acceptor
        &&& n.learned_value == Some(value)
    } else {
        &&& n.proposer == nodes[j].proposer
        &&& n.proposer.proposed_value is None
        &&& n.learned_value is None
        &&& n.acceptor.promised_number == 1
        &&& n.acceptor.accepted_proposal == Some(prop)
    };
    let okm_e = |m: MessageView| m is Accepted;
    let out_e = |m: MessageView| true;
    assert forall|j: int| #![trigger n4[j]] 0 <= j < len && j != len implies inv_e(j, n4[j]) by {
        if j != p {
            assert(post_d(j, n4[j]));
            assert(fresh_node(nodes[j]));
        }
    }
    assert forall|j: int, n: NodeView, m: MessageView| #![trigger inv_e(j, n), okm_e(m)]
        okm_e(m) && j != len && inv_e(j, n) implies {
            &&& post_e(j, node_receive(n, m).0)
            &&& node_receive(n, m).1.len() == 0int
            &&& all_msgs(node_receive(n, m).1, out_e)
        } by {
    }
    assert forall|k: int| 0 <= k < accepted.len() implies okm_e(#[trigger] accepted[k]) by {
        assert(out_d(accepted[k]));
    }
    lemma_deliver_each_inv(n4, len, accepted, inv_e, post_e, okm_e, out_e, false);
    let fin = deliver_each(n4, len, accepted).0;
    assert(fin == paxos_run(nodes, p, value));
    assert(post_e(p, fin[p]));
    assert forall|i: int| 0 <= i < len && i != p implies post_e(i, #[trigger] fin[i]) by {}
}

/// An acceptor never goes back on a promise: a prepare or an accept never
/// lowers the number it promised, a prepare leaves it promising at least the
/// prepared number, and an accept succeeds exactly when the proposal is
/// numbered at least as high as the promise, recording that proposal.
pub proof fn law_acceptor_promise_monotone(a: AcceptorView, n: u64, p: ProposalView)
    ensures
        acceptor_on_prepare(a, n).0.promised_number >= a.promised_number,
        acceptor_on_prepare(a, n).0.promised_number >= n,
        acceptor_on_prepare(a, n).0.accepted_proposal == a.accepted_proposal,
        acceptor_on_accept(a, p).0.promised_number >= a.promised_number,
        acceptor_on_accept(a, p).1 <==> p.number >= a.promised_number,
        acceptor_on_accept(a, p).1 ==> acceptor_on_accept(a, p).0.accepted_proposal == Some(p),
        !acceptor_on_accept(a, p).1 ==> acceptor_on_accept(a, p).0 == a,
{
}

/// A promise that carries an accepted proposal.
pub open spec fn carries(m: MessageView) -> bool {
    m matches MessageView::Promise { accepted_proposal: Some(_), .. }
}

/// A promise that carries nothing or the proposal `prop`.
pub open spec fn promise_of(m: MessageView, prop: ProposalView) -> bool {
    m matches MessageView::Promise { accepted_proposal: a, .. } && (a is None || a == Some(prop))
}

/// Among promises that carry nothing or `prop`, the highest accepted
/// proposal is `prop` as soon as one carries it.
proof fn lemma_highest_single(ps: Seq<MessageView>, prop: ProposalView)
    requires
        forall|k: int| 0 <= k < ps.len() ==> promise_of(#[trigger] ps[k], prop),
    ensures
        (exists|k: int| 0 <= k < ps.len() && carries(#[trigger] ps[k])) ==> highest_accepted(ps) == Some(prop),
        !(exists|k: int| 0 <= k < ps.len() && carries(#[trigger] ps[k])) ==> highest_accepted(ps) is None,
    decreases ps.len(),
{
    if ps.len() > 0 {
        let d = ps.drop_last();
        assert forall|k: int| 0 <= k < d.len() implies promise_of(#[trigger] d[k], prop) by {
            assert(d[k] == ps[k]);
        }
        lemma_highest_single(d, prop);
        assert(ps[ps.len() - 1] == ps.last());
        assert(promise_of(ps.last(), prop));
        if exists|k: int| 0 <= k < d.len() && carries(#[trigger] d[k]) {
            let k = choose|k: int| 0 <= k < d.len() && carries(#[trigger] d[k]);
            assert(ps[k] == d[k]);
        }
        if exists|k: int| 0 <= k < ps.len() && carries(#[trigger] ps[k]) {
            let k = choose|k: int| 0 <= k < ps.len() && carries(#[trigger] ps[k]);
            if k < d.len() {
                assert(d[k] == ps[k]);
            }
        }
    }
}

/// A proposer gathering promises that carry nothing or `prop`, no two of
/// them carrying nothing, with a quorum of at least two: every accept
/// request it sends asks for the value of `prop`, which it adopts.
proof fn lemma_gather_mixed(n: NodeView, ms: Seq<MessageView>, own: Seq<char>, prop: ProposalView, v: Seq<char>)
    requires
        n.proposer.promises_received.len() == 0,
        n.proposer.proposed_value == Some(own),
        prop.value == Some(v),
        quorum_of(n.proposer.acceptors) >= 2,
        forall|k: int| 0 <= k < ms.len() ==> promise_of(#[trigger] ms[k], prop),
        forall|a: int, b: int| 0 <= a < b < ms.len() ==> carries(#[trigger] ms[a]) || carries(#[trigger] ms[b]),
    ensures
        receive_each(n, ms).0.proposer.promises_received == ms,
        receive_each(n, ms).0.proposer.proposed_value == (if ms.len() >= quorum_of(n.proposer.acceptors) {
            Some(v)
        } else {
            Some(own)
        }),
        receive_each(n, ms).0.proposer.proposal_number == n.proposer.proposal_number,
        receive_each(n, ms).0.proposer.acceptors == n.proposer.acceptors,
        receive_each(n, ms).0.proposer.id == n.proposer.id,
        receive_each(n, ms).0.acceptor == n.acceptor,
        receive_each(n, ms).0.learned_value == n.learned_value,
        all_msgs(receive_each(n, ms).1, |m: MessageView| m == MessageView::Accept {
            proposal: ProposalView { number: n.proposer.proposal_number, value: Some(v) },
            proposer_id: n.proposer.id,
        }),
        receive_each(n, ms).1.len() == (if ms.len() >= quorum_of(n.proposer.acceptors) {
            ms.len() - quorum_of(n.proposer.acceptors) + 1
        } else {
            0
        }),
    decreases ms.len(),
{
    if ms.len() > 0 {
        let d = ms.drop_last();
        assert forall|k: int| 0 <= k < d.len() implies promise_of(#[trigger] d[k], prop) by {
            assert(d[k] == ms[k]);
        }
        assert forall|a: int, b: int| 0 <= a < b < d.len() implies carries(#[trigger] d[a]) || carries(#[trigger] d[b]) by {
            assert(d[a] == ms[a]);
            assert(d[b] == ms[b]);
        }
        lemma_gather_mixed(n, d, own, prop, v);
        let (n1, r1) = receive_each(n, d);
        let m = ms.last();
        assert(ms[ms.len() - 1] == m);
        assert(n1.proposer.promises_received.push(m) =~= ms);
        lemma_highest_single(ms, prop);
        if ms.len() >= quorum_of(n.proposer.acceptors) {
            assert(carries(ms[0]) || carries(ms[1]));
            assert(highest_accepted(ms) == Some(prop));
        }
        let (n2, r2) = node_receive(n1, m);
        let all = r1 + r2;
        let target = MessageView::Accept {
            proposal: ProposalView { number: n.proposer.proposal_number, value: Some(v) },
            proposer_id: n.proposer.id,
        };
        assert forall|k: int| 0 <= k < all.len() implies #[trigger] all[k] == target by {
            if k < r1.len() {
                assert(all[k] == r1[k]);
            } else {
                assert(all[k] == r2[k - r1.len()]);
            }
        }
    }
}

/// Delivering one message whose reply from every node but `bad` carries an
/// accepted proposal: no two of the gathered replies carry nothing, and none
/// fails to carry one before `bad` is reached.
proof fn lemma_deliver_one_bare(nodes: Seq<NodeView>, skip: int, msg: MessageView, i: int, bad: int)
    requires
        0 <= i <= nodes.len(),
        forall|j: int| #![trigger nodes[j]] 0 <= j < i && j != skip ==> {
            &&& node_receive(nodes[j], msg).1.len() == 1
            &&& (j != bad ==> carries(node_receive(nodes[j], msg).1[0]))
        },
    ensures
        i <= bad ==> forall|k: int| 0 <= k < deliver_to_all(nodes, skip, msg, i).1.len() ==>
            carries(#[trigger] deliver_to_all(nodes, skip, msg, i).1[k]),
        forall|a: int, b: int| 0 <= a < b < deliver_to_all(nodes, skip, msg, i).1.len() ==>
            carries(#[trigger] deliver_to_all(nodes, skip, msg, i).1[a])
                || carries(#[trigger] deliver_to_all(nodes, skip, msg, i).1[b]),
    decreases i,
{
    if i > 0 {
        lemma_deliver_one_bare(nodes, skip, msg, i - 1, bad);
        let any_node = |j: int, n: NodeView| true;
        let any_msg = |m: MessageView| true;
        assert forall|j: int| #![trigger nodes[j]] 0 <= j < i - 1 && j != skip implies {
            &&& any_node(j, node_receive(nodes[j], msg).0)
            &&& node_receive(nodes[j], msg).1.len() == 1int
            &&& all_msgs(node_receive(nodes[j], msg).1, any_msg)
        } by {}
        lemma_deliver_to_all_post(nodes, skip, msg, i - 1, any_node, any_msg, true);
        let (ns, rs) = deliver_to_all(nodes, skip, msg, i - 1);
        if i - 1 != skip {
            assert(ns[i - 1] == nodes[i - 1]);
            let r2 = node_receive(nodes[i - 1], msg).1;
            let rs2 = deliver_to_all(nodes, skip, msg, i).1;
            assert(rs2 == rs + r2);
            assert forall|a: int, b: int| 0 <= a < b < rs2.len() implies carries(#[trigger] rs2[a]) || carries(#[trigger] rs2[b]) by {
                assert(rs2[a] == rs[a]);
                if b < rs.len() {
                    assert(rs2[b] == rs[b]);
                } else {
                    assert(rs2[b] == r2[0]);
                }
            }
            if i <= bad {
                assert forall|k: int| 0 <= k < rs2.len() implies carries(#[trigger] rs2[k]) by {
                    if k < rs.len() {
                        assert(rs2[k] == rs[k]);
                    } else {
                        assert(rs2[k] == r2[0]);
                    }
                }
            }
        }
    }
}

/// Once a value is chosen it stays chosen: on a fresh cluster of at least
/// three nodes, after a round in which `p1` proposes `v`, a round in which
/// another node `p2` proposes `w` learns `v` again; both proposers have then
/// learned `v`, and no node has learned anything else.
pub proof fn law_second_proposer_learns_chosen_value(nodes: Seq<NodeView>, p1: int, p2: int, v: Seq<char>, w: Seq<char>)
    requires
        0 <= p1 < nodes.len(),
        0 <= p2 < nodes.len(),
        p1 != p2,
        nodes.len() >= 3,
        nodes[p1].proposer.acceptors == nodes.len(),
        nodes[p2].proposer.acceptors == nodes.len(),
        forall|i: int| 0 <= i < nodes.len() ==> #[trigger] fresh_node(nodes[i]),
    ensures
        paxos_run(paxos_run(nodes, p1, v), p2, w).len() == nodes.len(),
        paxos_run(paxos_run(nodes, p1, v), p2, w)[p1].learned_value == Some(v),
        paxos_run(paxos_run(nodes, p1, v), p2, w)[p2].learned_value == Some(v),
        forall|i: int| 0 <= i < nodes.len() && (#[trigger] paxos_run(paxos_run(nodes, p1, v), p2, w)[i]).learned_value is Some ==>
            paxos_run(paxos_run(nodes, p1, v), p2, w)[i].learned_value == Some(v),
{
    law_fresh_paxos_run(nodes, p1, v);
    let r1 = paxos_run(nodes, p1, v);
    let len = nodes.len() as int;
    let prop = ProposalView { number: 1, value: Some(v) };
    let pid = r1[p2].proposer.id;
    assert(fresh_node(nodes[p1]));
    assert(fresh_node(nodes[p2]));
    assert(r1[p2].proposer == nodes[p2].proposer);
    let (pn, prepare) = node_propose(r1[p2], w);
    let n1 = r1.update(p2, pn);

    // The first proposer promises with nothing accepted; every other node
    // promises with the chosen proposal.
    let post_b = |j: int, n: NodeView| {
        &&& n.acceptor.promised_number == 1
        &&& if j == p1 {
            n.acceptor.accepted_proposal is None && n.learned_value == Some(v) && n.proposer.proposed_value == Some(v)
        } else {
            n.acceptor.accepted_proposal == Some(prop) && n.learned_value is None && n.proposer.proposed_value is None
        }
    };
    let out_b = |m: MessageView| promise_of(m, prop);
    assert forall|j: int| #![trigger n1[j]] 0 <= j < len && j != p2 implies {
        &&& post_b(j, node_receive(n1[j], prepare).0)
        &&& node_receive(n1[j], prepare).1.len() == 1int
        &&& all_msgs(node_receive(n1[j], prepare).1, out_b)
        &&& (j != p1 ==> carries(node_receive(n1[j], prepare).1[0]))
    } by {
        assert(n1[j] == r1[j]);
        assert(fresh_node(nodes[j]));
        if j != p1 {
            assert(r1[j].proposer == nodes[j].proposer);
        }
        let r = node_receive(n1[j], prepare).1;
        assert forall|k: int| 0 <= k < r.len() implies out_b(#[trigger] r[k]) by {}
    }
    lemma_deliver_to_all_post(n1, p2, prepare, len, post_b, out_b, true);
    lemma_deliver_one_bare(n1, p2, prepare, len, p1);
    let (n2, promises) = deliver_to_all(n1, p2, prepare, len);
    assert(n2[p2] == pn);
    assert forall|k: int| 0 <= k < promises.len() implies promise_of(#[trigger] promises[k], prop) by {
        assert(out_b(promises[k]));
    }

    // The second proposer adopts the chosen value.
    lemma_gather_mixed(pn, promises, w, prop, v);
    let (pn2, accepts) = receive_each(n2[p2], promises);
    let n3 = n2.update(p2, pn2);
    let accept = MessageView::Accept { proposal: prop, proposer_id: pid };
    assert(accepts.len() >= 1);

    // Every other node accepts the chosen proposal again.
    let inv_d = |j: int, n: NodeView| {
        &&& n.acceptor.promised_number == 1
        &&& if j == p1 {
            n.learned_value == Some(v) && n.proposer.proposed_value == Some(v)
        } else {
            n.learned_value is None && n.proposer.proposed_value is None
        }
    };
    let post_d = |j: int, n: NodeView| inv_d(j, n) && n.acceptor.accepted_proposal == Some(prop);
    let okm_d = |m: MessageView| m == accept;
    let out_d = |m: MessageView| m is Accepted;
    assert forall|j: int| #![trigger n3[j]] 0 <= j < len && j != p2 implies inv_d(j, n3[j]) by {
        assert(n3[j] == n2[j]);
        assert(post_b(j, n2[j]));
    }
    assert forall|k: int| 0 <= k < accepts.len() implies okm_d(#[trigger] accepts[k]) by {}
    assert forall|j: int, n: NodeView, m: MessageView| #![trigger inv_d(j, n), okm_d(m)]
        okm_d(m) && j != p2 && inv_d(j, n) implies {
            &&& post_d(j, node_receive(n, m).0)
            &&& node_receive(n, m).1.len() == 1int
            &&& all_msgs(node_receive(n, m).1, out_d)
        } by {
        let r = node_receive(n, m).1;
        assert forall|k: int| 0 <= k < r.len() implies out_d(#[trigger] r[k]) by {}
    }
    lemma_deliver_each_inv(n3, p2, accepts, inv_d, post_d, okm_d, out_d, true);
    let (n4, accepted) = deliver_each(n3, p2, accepts);
    assert(accepted.len() >= 1);
    assert(n4[p2] == pn2);

    // Every node hears the acceptances; the two proposers hold the chosen value.
    let inv_e = |j: int, n: NodeView| if j == p2 {
        n.proposer.proposed_value == Some(v) && (n.learned_value is None || n.learned_value == Some(v))
    } else if j == p1 {
        n.proposer.proposed_value == Some(v) && n.learned_value == Some(v)
    } else {
        n.proposer.proposed_value is None && n.learned_value is None
    };
    let post_e = |j: int, n: NodeView| if j == p2 {
        n.proposer.proposed_value == Some(v) && n.learned_value == Some(v)
    } else {
        inv_e(j, n)
    };
    let okm_e = |m: MessageView| m is Accepted;
    let out_e = |m: MessageView| true;
    assert forall|j: int| #![trigger n4[j]] 0 <= j < len && j != len implies inv_e(j, n4[j]) by {
        if j != p2 {
            assert(post_d(j, n4[j]));
        } else {
            assert(r1[p2].learned_value is None);
        }
    }
    assert forall|j: int, n: NodeView, m: MessageView| #![trigger inv_e(j, n), okm_e(m)]
        okm_e(m) && j != len && inv_e(j, n) implies {
            &&& post_e(j, node_receive(n, m).0)
            &&& node_receive(n, m).1.len() == 0int
            &&& all_msgs(node_receive(n, m).1, out_e)
        } by {
    }
    assert forall|k: int| 0 <= k < accepted.len() implies okm_e(#[trigger] accepted[k]) by {
        assert(out_d(accepted[k]));
    }
    lemma_deliver_each_inv(n4, len, accepted, inv_e, post_e, okm_e, out_e, false);
    let fin = deliver_each(n4, len, accepted).0;
    assert(fin == paxos_run(r1, p2, w));
    assert(post_e(p2, fin[p2]));
    assert(post_e(p1, fin[p1]));
    assert forall|i: int| 0 <= i < len && (#[trigger] fin[i]).learned_value is Some implies fin[i].learned_value == Some(v) by {
        assert(post_e(i, fin[i]));
    }
}

/// The accepted proposal a message carries, if it is a promise carrying one.
pub open spec fn carried(m: MessageView) -> Option<ProposalView> {
    match m {
        MessageView::Promise { accepted_proposal, .. } => accepted_proposal,
        _ => None,
    }
}

/// The highest accepted proposal among the promises is one that a promise
/// carries, numbered at least as high as every proposal a promise carries;
/// there is none exactly when no promise carries one.
pub proof fn law_highest_accepted_is_highest(ps: Seq<MessageView>)
    ensures
        highest_accepted(ps) is None <==> forall|k: int| 0 <= k < ps.len() ==> (#[trigger] carried(ps[k])) is None,
        highest_accepted(ps) is Some ==> exists|k: int| 0 <= k < ps.len() && #[trigger] carried(ps[k]) == highest_accepted(ps),
        highest_accepted(ps) is Some ==> forall|k: int| 0 <= k < ps.len() && (#[trigger] carried(ps[k])) is Some ==>
            carried(ps[k])->0.number <= highest_accepted(ps)->0.number,
    decreases ps.len(),
{
    if ps.len() > 0 {
        let d = ps.drop_last();
        law_highest_accepted_is_highest(d);
        assert forall|k: int| 0 <= k < d.len() implies #[trigger] d[k] == ps[k] by {}
        let last = ps.last();
        let n = ps.len() - 1;
        assert(ps[n] == last);
        let h = highest_accepted(d);
        if carried(last) is Some {
            assert(highest_accepted(ps) is Some);
            if h is None || carried(last)->0.number > h->0.number {
                assert(highest_accepted(ps) == carried(last));
                assert(carried(ps[n]) == highest_accepted(ps));
            } else {
                assert(highest_accepted(ps) == h);
                let k = choose|k: int| 0 <= k < d.len() && #[trigger] carried(d[k]) == h;
                assert(carried(ps[k]) == highest_accepted(ps));
            }
        } else {
            assert(highest_accepted(ps) == h);
            if h is Some {
                let k = choose|k: int| 0 <= k < d.len() && #[trigger] carried(d[k]) == h;
                assert(carried(ps[k]) == highest_accepted(ps));
            } else {
                assert forall|k: int| 0 <= k < ps.len() implies (#[trigger] carried(ps[k])) is None by {
                    if k < d.len() {
                        assert(carried(d[k]) is None);
                    }
                }
            }
        }
        if highest_accepted(ps) is Some {
            assert forall|k: int| 0 <= k < ps.len() && (#[trigger] carried(ps[k])) is Some implies
                carried(ps[k])->0.number <= highest_accepted(ps)->0.number by {
                if k < d.len() {
                    assert(carried(d[k]) is Some);
                }
            }
        }
    }
}

/// A proposer adopts the highest proposal accepted so far: once a majority
/// has promised, its accept request carries its own proposal number and the
/// value of the highest-numbered proposal the promises carry, when that
/// proposal has a value, and otherwise its own value.
pub proof fn law_proposer_adopts_highest(p: ProposerView, m: MessageView)
    ensures
        (proposer_on_promise(p, m).1 is Some) <==> p.promises_received.len() + 1 >= p.acceptors / 2 + 1,
        proposer_on_promise(p, m).1 matches Some(out) ==> (out matches MessageView::Accept { proposal: q, proposer_id } ==> {
            let ps = p.promises_received.push(m);
            &&& q.number == p.proposal_number
            &&& proposer_id == p.id
            &&& (exists|k: int| 0 <= k < ps.len() && (#[trigger] carried(ps[k])) is Some) ==> {
                &&& exists|k: int| 0 <= k < ps.len() && #[trigger] carried(ps[k]) == highest_accepted(ps)
                &&& forall|k: int| 0 <= k < ps.len() && (#[trigger] carried(ps[k])) is Some ==>
                    carried(ps[k])->0.number <= highest_accepted(ps)->0.number
                &&& highest_accepted(ps)->0.value is Some ==> q.value == highest_accepted(ps)->0.value
            }
            &&& (forall|k: int| 0 <= k < ps.len() ==> (#[trigger] carried(ps[k])) is None) ==>
                q.value == Some(match p.proposed_value { Some(v) => v, None => Seq::<char>::empty() })
        }),
        proposer_on_promise(p, m).1 matches Some(out) ==> out is Accept,
{
    law_highest_accepted_is_highest(p.promises_received.push(m));
}

} // verus!
