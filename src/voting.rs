//! The voting record of one node and the rule by which it answers a candidate.
use vstd::prelude::*;

verus! {

/// The role a node plays in its current term.
#[derive(Clone, Copy, Debug, PartialEq, Eq, Structural)]
pub enum ElectionState {
    Follower,
    Candidate,
    Leader,
}

/// What a node knows of elections: its role, its term, and whom it voted for
/// in that term.
#[derive(Clone, Copy, Debug, PartialEq, Eq, Structural)]
pub struct State {
    pub election_state: ElectionState,
    pub current_term: i64,
    pub voted_for: Option<i64>,
}

/// A candidate's request for a vote in `term`.
#[derive(Clone, Copy, Debug, PartialEq, Eq, Structural)]
pub struct VoteRequest {
    pub term: i64,
    pub candidate_id: i64,
}

/// A node's answer to a vote request: its term after the request was
/// processed, and whether it gave its vote.
#[derive(Clone, Copy, Debug, PartialEq, Eq, Structural)]
pub struct VoteResponse {
    pub term: i64,
    pub vote_granted: bool,
}

/// The state of a node that has just started: a follower in term 0 that has
/// voted for nobody.
pub open spec fn initial_state() -> State {
    State { election_state: ElectionState::Follower, current_term: 0, voted_for: None }
}

/// How a node with state `s` answers `r`, and the state it is left in.
///
/// A request from an older term is refused and changes nothing. In the
/// node's own term the vote goes to the first candidate that asks, and again
/// to that same candidate, and to no other. A request from a newer term makes
/// the node a follower in that term, voting for the candidate.
pub open spec fn decide(s: State, r: VoteRequest) -> (State, VoteResponse) {
    if r.term < s.current_term {
        (s, VoteResponse { term: s.current_term, vote_granted: false })
    } else if r.term == s.current_term {
        match s.voted_for {
            None => (
                State {
                    election_state: s.election_state,
                    current_term: s.current_term,
                    voted_for: Some(r.candidate_id),
                },
                VoteResponse { term: r.term, vote_granted: true },
            ),
            Some(c) => (s, VoteResponse { term: r.term, vote_granted: c == r.candidate_id }),
        }
    } else {
        (
            State {
                election_state: ElectionState::Follower,
                current_term: r.term,
                voted_for: Some(r.candidate_id),
            },
            VoteResponse { term: r.term, vote_granted: true },
        )
    }
}

impl State {
    /// A fresh node: follower, term 0, no vote cast.
    pub fn new() -> (s: State)
        ensures
            s == initial_state(),
    {
        State { election_state: ElectionState::Follower, current_term: 0, voted_for: None }
    }
}

/// Answers a vote request against the node's state, updating the state as
/// the answer requires.
pub fn process_vote_request(state: &mut State, vote_request: &VoteRequest) -> (response:
    VoteResponse)
    ensures
        (*final(state), response) == decide(*old(state), *vote_request),
{
    if vote_request.term < state.current_term {
        return VoteResponse { term: state.current_term, vote_granted: false };
    }
    if vote_request.term == state.current_term {
        match state.voted_for {
            None => {
                state.voted_for = Some(vote_request.candidate_id);
                VoteResponse { term: vote_request.term, vote_granted: true }
            },
            Some(id) => VoteResponse {
                term: vote_request.term,
                vote_granted: id == vote_request.candidate_id,
            },
        }
    } else {
        state.election_state = ElectionState::Follower;
        state.current_term = vote_request.term;
        state.voted_for = Some(vote_request.candidate_id);
        VoteResponse { term: vote_request.term, vote_granted: true }
    }
}

/// The node's state after answering `reqs` in order, starting from `s`, and
/// its answers in the same order.
pub open spec fn decide_all(s: State, reqs: Seq<VoteRequest>) -> (State, Seq<VoteResponse>)
    decreases reqs.len(),
{
    if reqs.len() == 0 {
        (s, Seq::empty())
    } else {
        let prev = decide_all(s, reqs.drop_last());
        let step = decide(prev.0, reqs.last());
        (step.0, prev.1.push(step.1))
    }
}

/// Answering a request never moves a node back to an older term.
pub proof fn lemma_decide_term_monotone(s: State, r: VoteRequest)
    ensures
        decide(s, r).0.current_term >= s.current_term,
{
}

/// A request from a newer term always makes the node a follower in that
/// term, whatever its role was.
pub proof fn lemma_decide_newer_term_steps_down(s: State, r: VoteRequest)
    requires
        r.term > s.current_term,
    ensures
        decide(s, r).0.election_state == ElectionState::Follower,
        decide(s, r).0.current_term == r.term,
        decide(s, r).1.term == r.term,
{
}

/// Delivering the same request again is granted again: a node that has voted
/// for a candidate in a term grants that candidate's request for that term,
/// and a request that was granted once is granted a second time.
pub proof fn lemma_idempotent_regrant(s: State, r: VoteRequest)
    ensures
        s.current_term == r.term && s.voted_for == Some(r.candidate_id) ==> decide(s, r).1.vote_granted
            && decide(s, r).0 == s,
        decide(s, r).1.vote_granted ==> decide(decide(s, r).0, r).1.vote_granted,
{
}

proof fn lemma_decide_all_len(s: State, reqs: Seq<VoteRequest>)
    ensures
        decide_all(s, reqs).1.len() == reqs.len(),
    decreases reqs.len(),
{
    if reqs.len() > 0 {
        lemma_decide_all_len(s, reqs.drop_last());
    }
}

/// Among requests that all carry the term `t`, every granted one names the
/// candidate the node has voted for at the end, in the term `t`; and a node
/// that had already voted in `t` is left as it was.
proof fn lemma_grants_match_final_vote(s: State, reqs: Seq<VoteRequest>, t: i64)
    requires
        forall|k: int| 0 <= k < reqs.len() ==> (#[trigger] reqs[k]).term == t,
    ensures
        decide_all(s, reqs).1.len() == reqs.len(),
        forall|i: int|
            0 <= i < reqs.len() && (#[trigger] decide_all(s, reqs).1[i]).vote_granted ==> decide_all(
                s,
                reqs,
            ).0.current_term == t && decide_all(s, reqs).0.voted_for == Some(reqs[i].candidate_id),
        s.current_term == t && s.voted_for is Some ==> decide_all(s, reqs).0 == s,
    decreases reqs.len(),
{
    lemma_decide_all_len(s, reqs);
    if reqs.len() > 0 {
        let front = reqs.drop_last();
        assert forall|k: int| 0 <= k < front.len() implies (#[trigger] front[k]).term == t by {
            assert(front[k] == reqs[k]);
        }
        lemma_grants_match_final_vote(s, front, t);
        let prev = decide_all(s, front);
        let r = reqs.last();
        assert(r.term == t);
        let all = decide_all(s, reqs);
        assert forall|i: int|
            0 <= i < reqs.len() && (#[trigger] all.1[i]).vote_granted implies all.0.current_term == t
            && all.0.voted_for == Some(reqs[i].candidate_id) by {
            if i < front.len() {
                assert(all.1[i] == prev.1[i]);
                assert(reqs[i] == front[i]);
            } else {
                assert(all.1[i] == decide(prev.0, r).1);
            }
        }
    }
}

/// A node grants its vote in a term to at most one candidate: among requests
/// that all carry the same term, any two that are granted name the same
/// candidate, and if the node had already voted in that term, that is the
/// candidate of every granted one.
pub proof fn lemma_vote_uniqueness(s: State, reqs: Seq<VoteRequest>, t: i64)
    requires
        forall|k: int| 0 <= k < reqs.len() ==> (#[trigger] reqs[k]).term == t,
    ensures
        decide_all(s, reqs).1.len() == reqs.len(),
        forall|i: int, j: int|
            0 <= i < reqs.len() && 0 <= j < reqs.len() && (#[trigger] decide_all(s, reqs).1[i]).vote_granted
                && (#[trigger] decide_all(s, reqs).1[j]).vote_granted ==> reqs[i].candidate_id
                == reqs[j].candidate_id,
        forall|i: int|
            0 <= i < reqs.len() && s.current_term == t && s.voted_for is Some && (#[trigger] decide_all(
                s,
                reqs,
            ).1[i]).vote_granted ==> s.voted_for == Some(reqs[i].candidate_id),
{
    lemma_grants_match_final_vote(s, reqs, t);
}

} // verus!
