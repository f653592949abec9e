//! One election round as seen by the candidate: it opens the round, records
//! each peer's answer as it arrives, and closes the round with a role.
use vstd::prelude::*;
use crate::voting::{ElectionState, State, VoteRequest, VoteResponse};

verus! {

/// The running count of one election round.
///
/// `term` is the term the round campaigns for and `peers` the number of
/// peers asked. `answered` counts the peers accounted for so far, whether
/// they replied or were given up on, and `granted` those that gave their
/// vote. `abandoned` is set once a reply from a newer term has ended the
/// round.
#[derive(Clone, Copy, Debug, PartialEq, Eq, Structural)]
pub struct Tally {
    pub term: i64,
    pub peers: usize,
    pub granted: usize,
    pub answered: usize,
    pub abandoned: bool,
}

/// The mathematical view of a [`Tally`].
pub struct TallyView {
    pub term: int,
    pub peers: nat,
    pub granted: nat,
    pub answered: nat,
    pub abandoned: bool,
}

impl View for Tally {
    type V = TallyView;

    open spec fn view(&self) -> TallyView {
        TallyView {
            term: self.term as int,
            peers: self.peers as nat,
            granted: self.granted as nat,
            answered: self.answered as nat,
            abandoned: self.abandoned,
        }
    }
}

impl TallyView {
    /// Every granted vote comes from a peer accounted for, and no more peers
    /// are accounted for than were asked.
    pub open spec fn wf(self) -> bool {
        self.granted <= self.answered <= self.peers
    }
}

impl Tally {
    /// See [`TallyView::wf`].
    pub open spec fn wf(&self) -> bool {
        self@.wf()
    }

    /// A round for `term` over `peers` peers, with nobody accounted for yet.
    pub fn new(term: i64, peers: usize) -> (t: Tally)
        ensures
            t@ == fresh_tally(term as int, peers as nat),
            t.wf(),
    {
        Tally { term, peers, granted: 0, answered: 0, abandoned: false }
    }
}

/// A round for `term` over `peers` peers, with nobody accounted for yet.
pub open spec fn fresh_tally(term: int, peers: nat) -> TallyView {
    TallyView { term, peers, granted: 0, answered: 0, abandoned: false }
}

/// The state of a node that starts a campaign: a candidate in the next term
/// that has voted for itself.
pub open spec fn begin(s: State, id: i64) -> State {
    State {
        election_state: ElectionState::Candidate,
        current_term: (s.current_term + 1) as i64,
        voted_for: Some(id),
    }
}

/// The request a node sends to its peers after starting a campaign from `s`.
pub open spec fn campaign_request(s: State, id: i64) -> VoteRequest {
    VoteRequest { term: (s.current_term + 1) as i64, candidate_id: id }
}

/// Whether `r` comes from a term newer than `term`.
pub open spec fn is_newer(r: Option<VoteResponse>, term: i64) -> bool {
    match r {
        Some(v) => v.term > term,
        None => false,
    }
}

/// Whether `r` is a reply that gives the vote.
pub open spec fn is_grant(r: Option<VoteResponse>) -> bool {
    match r {
        Some(v) => v.vote_granted,
        None => false,
    }
}

/// The effect of one peer's outcome on the node and the round: `Some` is a
/// reply, `None` a peer that did not reply in time.
///
/// Once the round is abandoned, nothing changes. A reply from a newer term
/// makes the node a follower in that term, with no vote cast, and abandons
/// the round. Otherwise the peer is accounted for, and counted as granting
/// if it gave its vote.
pub open spec fn record(s: State, t: TallyView, r: Option<VoteResponse>) -> (State, TallyView) {
    if t.abandoned {
        (s, t)
    } else if is_newer(r, s.current_term) {
        (
            State {
                election_state: ElectionState::Follower,
                current_term: r.unwrap().term,
                voted_for: None,
            },
            TallyView { abandoned: true, answered: t.answered + 1, ..t },
        )
    } else {
        (
            s,
            TallyView {
                granted: if is_grant(r) { t.granted + 1 } else { t.granted },
                answered: t.answered + 1,
                ..t
            },
        )
    }
}

/// Whether the round `t` has won: it was not abandoned and at least half of
/// the peers, rounded down, gave their vote.
pub open spec fn won(t: TallyView) -> bool {
    !t.abandoned && t.granted >= t.peers / 2
}

/// The node's state once the round `t` is closed: a candidate still in the
/// round's term that has won becomes leader; any other state stays as it is.
pub open spec fn conclude(s: State, t: TallyView) -> State {
    if won(t) && s.election_state == ElectionState::Candidate && s.current_term == t.term {
        State { election_state: ElectionState::Leader, ..s }
    } else {
        s
    }
}

/// Starts a campaign: the node becomes a candidate in the next term and votes
/// for itself. Returns the request to send to every peer.
pub fn begin_election(state: &mut State, id: i64) -> (request: VoteRequest)
    requires
        old(state).current_term < i64::MAX,
    ensures
        *final(state) == begin(*old(state), id),
        request == campaign_request(*old(state), id),
{
    state.election_state = ElectionState::Candidate;
    state.current_term = state.current_term + 1;
    state.voted_for = Some(id);
    VoteRequest { term: state.current_term, candidate_id: id }
}

/// Records one peer's outcome in the round: `Some` is its reply, `None` says
/// that it did not reply in time. Returns whether the round is still open,
/// that is whether further replies still count.
pub fn record_response(state: &mut State, tally: &mut Tally, response: Option<VoteResponse>) -> (open: bool)
    requires
        old(tally).wf(),
        old(tally).answered < old(tally).peers,
    ensures
        (*final(state), final(tally)@) == record(*old(state), old(tally)@, response),
        final(tally).wf(),
        final(tally).term == old(tally).term,
        final(tally).peers == old(tally).peers,
        open == !final(tally).abandoned,
{
    if tally.abandoned {
        return false;
    }
    match response {
        Some(r) => {
            if r.term > state.current_term {
                state.election_state = ElectionState::Follower;
                state.current_term = r.term;
                state.voted_for = None;
                tally.abandoned = true;
                tally.answered = tally.answered + 1;
                return false;
            }
            if r.vote_granted {
                tally.granted = tally.granted + 1;
            }
            tally.answered = tally.answered + 1;
        },
        None => {
            tally.answered = tally.answered + 1;
        },
    }
    true
}

/// Closes the round: a candidate still in the round's term becomes leader if
/// the round was won; otherwise the node stays as it is.
pub fn conclude_election(state: &mut State, tally: &Tally)
    ensures
        *final(state) == conclude(*old(state), tally@),
{
    if !tally.abandoned && tally.granted >= tally.peers / 2
        && state.election_state == ElectionState::Candidate
        && state.current_term == tally.term
    {
        state.election_state = ElectionState::Leader;
    }
}

/// The node and the round after recording `rs` in the order they arrived,
/// starting from `s` and `t`.
pub open spec fn tally_all(s: State, t: TallyView, rs: Seq<Option<VoteResponse>>) -> (State, TallyView)
    decreases rs.len(),
{
    if rs.len() == 0 {
        (s, t)
    } else {
        let prev = tally_all(s, t, rs.drop_last());
        record(prev.0, prev.1, rs.last())
    }
}

/// The node's state after a whole round: it starts a campaign from `s`, the
/// outcomes of its peers arrive in the order of `rs` (one for each peer,
/// `None` for a peer that did not reply in time), and the round is closed.
pub open spec fn election_round(s: State, id: i64, rs: Seq<Option<VoteResponse>>) -> State {
    let s1 = begin(s, id);
    let end = tally_all(s1, fresh_tally(s1.current_term as int, rs.len()), rs);
    conclude(end.0, end.1)
}

/// The number of outcomes in `rs` that give the vote.
pub open spec fn granted_count(rs: Seq<Option<VoteResponse>>) -> nat
    decreases rs.len(),
{
    if rs.len() == 0 {
        0
    } else {
        granted_count(rs.drop_last()) + if is_grant(rs.last()) {
            1nat
        } else {
            0nat
        }
    }
}

/// Neither starting a campaign, nor recording an outcome, nor closing a round
/// moves a node back to an older term.
pub proof fn lemma_term_monotone(s: State, id: i64, t: TallyView, r: Option<VoteResponse>)
    ensures
        s.current_term < i64::MAX ==> begin(s, id).current_term > s.current_term,
        record(s, t, r).0.current_term >= s.current_term,
        conclude(s, t).current_term == s.current_term,
{
}

/// A reply from a newer term makes the node a follower in that term and ends
/// the round, however many votes were granted before it; the closed round
/// then leaves the node a follower.
pub proof fn lemma_record_newer_term_steps_down(s: State, t: TallyView, r: VoteResponse)
    requires
        !t.abandoned,
        r.term > s.current_term,
    ensures
        record(s, t, Some(r)).0.election_state == ElectionState::Follower,
        record(s, t, Some(r)).0.current_term == r.term,
        record(s, t, Some(r)).1.abandoned,
        conclude(record(s, t, Some(r)).0, record(s, t, Some(r)).1) == record(s, t, Some(r)).0,
{
}

proof fn lemma_tally_all_concat(
    s: State,
    t: TallyView,
    a: Seq<Option<VoteResponse>>,
    b: Seq<Option<VoteResponse>>,
)
    ensures
        tally_all(s, t, a + b) == tally_all(tally_all(s, t, a).0, tally_all(s, t, a).1, b),
    decreases b.len(),
{
    if b.len() == 0 {
        assert(a + b =~= a);
    } else {
        assert((a + b).drop_last() =~= a + b.drop_last());
        assert((a + b).last() == b.last());
        lemma_tally_all_concat(s, t, a, b.drop_last());
    }
}

proof fn lemma_abandoned_round_is_inert(s: State, t: TallyView, rs: Seq<Option<VoteResponse>>)
    requires
        t.abandoned,
    ensures
        tally_all(s, t, rs) == (s, t),
    decreases rs.len(),
{
    if rs.len() > 0 {
        lemma_abandoned_round_is_inert(s, t, rs.drop_last());
    }
}

/// With no reply from a term newer than the node's, recording `rs` leaves the
/// node as it was and counts exactly the granting outcomes.
proof fn lemma_tally_without_newer(s: State, t: TallyView, rs: Seq<Option<VoteResponse>>)
    requires
        !t.abandoned,
        forall|k: int| 0 <= k < rs.len() ==> !is_newer(#[trigger] rs[k], s.current_term),
    ensures
        tally_all(s, t, rs).0 == s,
        tally_all(s, t, rs).1 == (TallyView {
            granted: t.granted + granted_count(rs),
            answered: t.answered + rs.len(),
            ..t
        }),
    decreases rs.len(),
{
    if rs.len() > 0 {
        let front = rs.drop_last();
        assert forall|k: int| 0 <= k < front.len() implies !is_newer(#[trigger] front[k], s.current_term) by {
            assert(front[k] == rs[k]);
        }
        assert(!is_newer(rs[rs.len() - 1], s.current_term));
        lemma_tally_without_newer(s, t, front);
    }
}

/// The quorum rule of a round with no reply from a newer term: the node ends
/// in the new term, a leader if at least half of its peers (rounded down)
/// granted, and otherwise still a candidate.
pub proof fn lemma_quorum(s: State, id: i64, rs: Seq<Option<VoteResponse>>)
    requires
        s.current_term < i64::MAX,
        forall|k: int| 0 <= k < rs.len() ==> !is_newer(#[trigger] rs[k], begin(s, id).current_term),
    ensures
        election_round(s, id, rs).current_term == s.current_term + 1,
        election_round(s, id, rs).voted_for == Some(id),
        granted_count(rs) >= rs.len() / 2 ==> election_round(s, id, rs).election_state
            == ElectionState::Leader,
        granted_count(rs) < rs.len() / 2 ==> election_round(s, id, rs).election_state
            == ElectionState::Candidate,
{
    let s1 = begin(s, id);
    lemma_tally_without_newer(s1, fresh_tally(s1.current_term as int, rs.len()), rs);
}

proof fn lemma_granted_count_all(rs: Seq<Option<VoteResponse>>)
    requires
        forall|k: int| 0 <= k < rs.len() ==> is_grant(#[trigger] rs[k]),
    ensures
        granted_count(rs) == rs.len(),
    decreases rs.len(),
{
    if rs.len() > 0 {
        let front = rs.drop_last();
        assert forall|k: int| 0 <= k < front.len() implies is_grant(#[trigger] front[k]) by {
            assert(front[k] == rs[k]);
        }
        assert(is_grant(rs[rs.len() - 1]));
        lemma_granted_count_all(front);
    }
}

/// A candidate whose peers all grant, none from a newer term, becomes leader
/// of the new term.
pub proof fn lemma_all_granted_wins(s: State, id: i64, rs: Seq<Option<VoteResponse>>)
    requires
        s.current_term < i64::MAX,
        forall|k: int|
            0 <= k < rs.len() ==> is_grant(#[trigger] rs[k]) && !is_newer(rs[k], begin(s, id).current_term),
    ensures
        election_round(s, id, rs).election_state == ElectionState::Leader,
        election_round(s, id, rs).current_term == s.current_term + 1,
{
    lemma_granted_count_all(rs);
    lemma_quorum(s, id, rs);
}

/// The first reply from a newer term decides a round: the node ends as a
/// follower in that reply's term, with no vote cast, whatever the other
/// peers answered before or after it.
pub proof fn lemma_round_steps_down(s: State, id: i64, rs: Seq<Option<VoteResponse>>, k: int)
    requires
        s.current_term < i64::MAX,
        0 <= k < rs.len(),
        is_newer(rs[k], begin(s, id).current_term),
        forall|j: int| 0 <= j < k ==> !is_newer(#[trigger] rs[j], begin(s, id).current_term),
    ensures
        election_round(s, id, rs) == (State {
            election_state: ElectionState::Follower,
            current_term: rs[k].unwrap().term,
            voted_for: None,
        }),
{
    let s1 = begin(s, id);
    let t0 = fresh_tally(s1.current_term as int, rs.len());
    let before = rs.take(k);
    let rest = rs.skip(k);
    let at = seq![rs[k]];
    let after = rs.skip(k + 1);
    assert(rs =~= before + rest);
    assert(rest =~= at + after);
    assert forall|j: int| 0 <= j < before.len() implies !is_newer(#[trigger] before[j], s1.current_term) by {
        assert(before[j] == rs[j]);
    }
    lemma_tally_without_newer(s1, t0, before);
    lemma_tally_all_concat(s1, t0, before, rest);
    let mid = tally_all(s1, t0, before);
    lemma_tally_all_concat(mid.0, mid.1, at, after);
    assert(at.drop_last() =~= Seq::<Option<VoteResponse>>::empty());
    assert(tally_all(mid.0, mid.1, at.drop_last()) == mid);
    assert(at.last() == rs[k]);
    assert(mid.0 == s1 && !mid.1.abandoned);
    let stepped = tally_all(mid.0, mid.1, at);
    assert(stepped == record(s1, mid.1, rs[k]));
    assert(stepped.1.abandoned);
    lemma_abandoned_round_is_inert(stepped.0, stepped.1, after);
}

} // verus!
