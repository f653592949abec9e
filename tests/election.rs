use raft_election::election::{begin_election, conclude_election, record_response, Tally};
use raft_election::voting::{process_vote_request, ElectionState, State, VoteRequest, VoteResponse};

fn peer(term: i64, voted_for: Option<i64>) -> State {
    State { election_state: ElectionState::Follower, current_term: term, voted_for }
}

#[test]
fn fresh_state_is_unvoted_follower() {
    let state = State::new();
    assert_eq!(ElectionState::Follower, state.election_state);
    assert_eq!(0, state.current_term);
    assert_eq!(None, state.voted_for);
}

#[test]
fn request_vote_win_election() {
    let mut server = State::new();
    let mut nodes = vec![State::new(), State::new(), State::new(), State::new()];
    let request = begin_election(&mut server, 0);
    assert_eq!(VoteRequest { term: 1, candidate_id: 0 }, request);
    let mut tally = Tally::new(request.term, nodes.len());
    for node in nodes.iter_mut() {
        let response = process_vote_request(node, &request);
        assert!(record_response(&mut server, &mut tally, Some(response)));
    }
    conclude_election(&mut server, &tally);
    assert_eq!(ElectionState::Leader, server.election_state);
    assert_eq!(1, server.current_term);
    assert_eq!(4, tally.granted);
    for node in &nodes {
        assert_eq!(Some(0), node.voted_for);
        assert_eq!(1, node.current_term);
    }
}

#[test]
fn stale_request_is_refused_without_change() {
    let mut state = peer(5, Some(2));
    let response = process_vote_request(&mut state, &VoteRequest { term: 3, candidate_id: 1 });
    assert_eq!(VoteResponse { term: 5, vote_granted: false }, response);
    assert_eq!(peer(5, Some(2)), state);
}

#[test]
fn same_term_grants_first_candidate_only() {
    let mut state = peer(3, None);
    let first = process_vote_request(&mut state, &VoteRequest { term: 3, candidate_id: 1 });
    assert_eq!(VoteResponse { term: 3, vote_granted: true }, first);
    assert_eq!(Some(1), state.voted_for);
    let other = process_vote_request(&mut state, &VoteRequest { term: 3, candidate_id: 2 });
    assert_eq!(VoteResponse { term: 3, vote_granted: false }, other);
    assert_eq!(peer(3, Some(1)), state);
}

#[test]
fn redelivered_request_is_granted_again() {
    let mut state = peer(0, None);
    let request = VoteRequest { term: 4, candidate_id: 7 };
    let first = process_vote_request(&mut state, &request);
    let second = process_vote_request(&mut state, &request);
    assert_eq!(VoteResponse { term: 4, vote_granted: true }, first);
    assert_eq!(VoteResponse { term: 4, vote_granted: true }, second);
    assert_eq!(peer(4, Some(7)), state);
}

#[test]
fn newer_request_demotes_leader() {
    let mut state = State { election_state: ElectionState::Leader, current_term: 2, voted_for: Some(0) };
    let response = process_vote_request(&mut state, &VoteRequest { term: 7, candidate_id: 3 });
    assert_eq!(VoteResponse { term: 7, vote_granted: true }, response);
    assert_eq!(peer(7, Some(3)), state);
}

#[test]
fn one_grant_per_term_over_many_requests() {
    let mut state = peer(2, None);
    let mut granted = Vec::new();
    for candidate in [1, 2, 1, 3, 2] {
        let response = process_vote_request(&mut state, &VoteRequest { term: 3, candidate_id: candidate });
        if response.vote_granted {
            granted.push(candidate);
        }
    }
    assert_eq!(vec![1, 1], granted);
    assert_eq!(peer(3, Some(1)), state);
}

#[test]
fn term_never_decreases() {
    let mut state = peer(0, None);
    let mut last = state.current_term;
    for (term, candidate) in [(2, 1), (1, 2), (2, 3), (5, 4), (3, 1), (5, 5)] {
        process_vote_request(&mut state, &VoteRequest { term, candidate_id: candidate });
        assert!(state.current_term >= last);
        last = state.current_term;
    }
    assert_eq!(5, last);
}

#[test]
fn begin_election_votes_for_self_in_next_term() {
    let mut state = State { election_state: ElectionState::Leader, current_term: 9, voted_for: Some(4) };
    let request = begin_election(&mut state, 2);
    assert_eq!(VoteRequest { term: 10, candidate_id: 2 }, request);
    assert_eq!(State { election_state: ElectionState::Candidate, current_term: 10, voted_for: Some(2) }, state);
}

#[test]
fn peer_in_newer_term_ends_the_round() {
    let mut server = State::new();
    let mut nodes = vec![peer(42, Some(9)), State::new(), State::new(), State::new()];
    let request = begin_election(&mut server, 0);
    let mut tally = Tally::new(request.term, nodes.len());
    let refusal = process_vote_request(&mut nodes[0], &request);
    assert_eq!(VoteResponse { term: 42, vote_granted: false }, refusal);
    assert!(!record_response(&mut server, &mut tally, Some(refusal)));
    for node in nodes.iter_mut().skip(1) {
        let response = process_vote_request(node, &request);
        assert!(!record_response(&mut server, &mut tally, Some(response)));
    }
    conclude_election(&mut server, &tally);
    assert_eq!(peer(42, None), server);
    assert_eq!(0, tally.granted);
}

#[test]
fn newer_term_after_grants_still_steps_down() {
    let mut server = State::new();
    let request = begin_election(&mut server, 0);
    let mut tally = Tally::new(request.term, 4);
    for _ in 0..3 {
        assert!(record_response(&mut server, &mut tally, Some(VoteResponse { term: 1, vote_granted: true })));
    }
    assert!(!record_response(&mut server, &mut tally, Some(VoteResponse { term: 42, vote_granted: false })));
    conclude_election(&mut server, &tally);
    assert_eq!(peer(42, None), server);
    assert_eq!(3, tally.granted);
}

#[test]
fn first_newer_term_wins() {
    let mut server = State::new();
    let request = begin_election(&mut server, 0);
    let mut tally = Tally::new(request.term, 3);
    assert!(!record_response(&mut server, &mut tally, Some(VoteResponse { term: 8, vote_granted: false })));
    assert!(!record_response(&mut server, &mut tally, Some(VoteResponse { term: 12, vote_granted: false })));
    assert_eq!(peer(8, None), server);
}

#[test]
fn silent_peers_are_neither_grant_nor_deny() {
    let mut server = State::new();
    let request = begin_election(&mut server, 0);
    let mut tally = Tally::new(request.term, 4);
    let outcomes = [None, Some(VoteResponse { term: 1, vote_granted: true }), None,
        Some(VoteResponse { term: 1, vote_granted: true })];
    for outcome in outcomes {
        assert!(record_response(&mut server, &mut tally, outcome));
    }
    assert_eq!(2, tally.granted);
    assert_eq!(4, tally.answered);
    conclude_election(&mut server, &tally);
    assert_eq!(ElectionState::Leader, server.election_state);
}

#[test]
fn silent_majority_leaves_candidate() {
    let mut server = State::new();
    let request = begin_election(&mut server, 0);
    let mut tally = Tally::new(request.term, 4);
    let outcomes = [None, None, Some(VoteResponse { term: 1, vote_granted: true }), None];
    for outcome in outcomes {
        record_response(&mut server, &mut tally, outcome);
    }
    conclude_election(&mut server, &tally);
    assert_eq!(State { election_state: ElectionState::Candidate, current_term: 1, voted_for: Some(0) }, server);
}

#[test]
fn too_few_grants_stays_candidate() {
    let mut server = State::new();
    let mut nodes = vec![peer(1, Some(5)), peer(1, Some(5)), peer(1, Some(5)), State::new(), peer(1, Some(5))];
    let request = begin_election(&mut server, 0);
    let mut tally = Tally::new(request.term, nodes.len());
    for node in nodes.iter_mut() {
        let response = process_vote_request(node, &request);
        assert!(record_response(&mut server, &mut tally, Some(response)));
    }
    assert_eq!(1, tally.granted);
    conclude_election(&mut server, &tally);
    assert_eq!(ElectionState::Candidate, server.election_state);
    assert_eq!(1, server.current_term);
}

#[test]
fn half_of_peers_rounded_down_is_enough() {
    let mut server = State::new();
    let request = begin_election(&mut server, 0);
    let mut tally = Tally::new(request.term, 5);
    let grant = Some(VoteResponse { term: 1, vote_granted: true });
    let deny = Some(VoteResponse { term: 1, vote_granted: false });
    for outcome in [deny, grant, deny, grant, deny] {
        record_response(&mut server, &mut tally, outcome);
    }
    conclude_election(&mut server, &tally);
    assert_eq!(ElectionState::Leader, server.election_state);
}

#[test]
fn no_peers_wins_alone() {
    let mut server = State::new();
    let request = begin_election(&mut server, 3);
    let tally = Tally::new(request.term, 0);
    conclude_election(&mut server, &tally);
    assert_eq!(State { election_state: ElectionState::Leader, current_term: 1, voted_for: Some(3) }, server);
}

#[test]
fn superseded_round_does_not_crown() {
    let mut server = State::new();
    let request = begin_election(&mut server, 0);
    let mut tally = Tally::new(request.term, 2);
    record_response(&mut server, &mut tally, Some(VoteResponse { term: 1, vote_granted: true }));
    process_vote_request(&mut server, &VoteRequest { term: 3, candidate_id: 6 });
    record_response(&mut server, &mut tally, Some(VoteResponse { term: 1, vote_granted: true }));
    conclude_election(&mut server, &tally);
    assert_eq!(peer(3, Some(6)), server);
}
