use voting::{DataKey, Poll, VotingContract, VotingError};

fn s(x: &str) -> String {
    x.to_string()
}

fn opts(xs: &[&str]) -> Vec<String> {
    xs.iter().map(|x| x.to_string()).collect()
}

fn count(result: &[(String, u32)], option: &str) -> Option<u32> {
    result.iter().find(|e| e.0 == option).map(|e| e.1)
}

#[test]
fn scenario_yes_no_poll() {
    let mut c = VotingContract::new();
    assert_eq!(c.create_poll(s("alice"), s("p1"), s("Agree?"), opts(&["yes", "no"])), Ok(()));
    assert_eq!(c.get_result(&s("p1")), Ok(vec![(s("yes"), 0), (s("no"), 0)]));
    assert_eq!(c.vote(s("bob"), s("p1"), &s("yes")), Ok(()));
    assert_eq!(c.get_result(&s("p1")), Ok(vec![(s("yes"), 1), (s("no"), 0)]));
    assert_eq!(c.vote(s("bob"), s("p1"), &s("yes")), Err(VotingError::AlreadyVoted));
    assert_eq!(c.get_result(&s("p1")), Ok(vec![(s("yes"), 1), (s("no"), 0)]));
    assert_eq!(c.close_poll(&s("alice"), &s("p1")), Ok(()));
    assert_eq!(c.vote(s("carol"), s("p1"), &s("no")), Err(VotingError::PollClosed));
    assert_eq!(c.get_result(&s("p1")), Ok(vec![(s("yes"), 1), (s("no"), 0)]));
}

#[test]
fn new_poll_has_every_option_at_zero() {
    let mut c = VotingContract::new();
    c.create_poll(s("alice"), s("colors"), s("Favourite?"), opts(&["red", "green", "blue"]))
        .unwrap();
    let r = c.get_result(&s("colors")).unwrap();
    assert_eq!(r.len(), 3);
    for o in ["red", "green", "blue"] {
        assert_eq!(count(&r, o), Some(0));
    }
    assert_eq!(count(&r, "yellow"), None);
}

#[test]
fn duplicate_options_collapse_to_one_entry() {
    let mut c = VotingContract::new();
    c.create_poll(s("alice"), s("d"), s("t"), opts(&["a", "b", "a", "b", "c"])).unwrap();
    assert_eq!(c.get_result(&s("d")), Ok(vec![(s("a"), 0), (s("b"), 0), (s("c"), 0)]));
    c.vote(s("v"), s("d"), &s("a")).unwrap();
    assert_eq!(c.get_result(&s("d")), Ok(vec![(s("a"), 1), (s("b"), 0), (s("c"), 0)]));
}

#[test]
fn empty_options_accept_no_vote() {
    let mut c = VotingContract::new();
    assert_eq!(c.create_poll(s("alice"), s("e"), s("t"), Vec::new()), Ok(()));
    assert_eq!(c.get_result(&s("e")), Ok(Vec::new()));
    assert_eq!(c.vote(s("bob"), s("e"), &s("")), Err(VotingError::InvalidChoice));
}

#[test]
fn second_create_fails_and_keeps_first_poll() {
    let mut c = VotingContract::new();
    c.create_poll(s("alice"), s("p"), s("t"), opts(&["x", "y"])).unwrap();
    c.vote(s("bob"), s("p"), &s("x")).unwrap();
    assert_eq!(
        c.create_poll(s("mallory"), s("p"), s("other"), opts(&["z"])),
        Err(VotingError::AlreadyExists)
    );
    assert_eq!(c.get_result(&s("p")), Ok(vec![(s("x"), 1), (s("y"), 0)]));
    // The original creator still owns the poll.
    assert_eq!(c.close_poll(&s("mallory"), &s("p")), Err(VotingError::NotCreator));
    assert_eq!(c.close_poll(&s("alice"), &s("p")), Ok(()));
}

#[test]
fn distinct_voters_are_all_counted() {
    let mut c = VotingContract::new();
    c.create_poll(s("alice"), s("p"), s("t"), opts(&["a", "b", "c"])).unwrap();
    let ballots = [("v1", "a"), ("v2", "b"), ("v3", "a"), ("v4", "c"), ("v5", "a"), ("v6", "b")];
    for (v, ch) in ballots {
        assert_eq!(c.vote(s(v), s("p"), &s(ch)), Ok(()));
    }
    let r = c.get_result(&s("p")).unwrap();
    assert_eq!(count(&r, "a"), Some(3));
    assert_eq!(count(&r, "b"), Some(2));
    assert_eq!(count(&r, "c"), Some(1));
    assert_eq!(r.iter().map(|e| e.1).sum::<u32>(), 6);
}

#[test]
fn second_vote_fails_even_for_another_choice() {
    let mut c = VotingContract::new();
    c.create_poll(s("alice"), s("p"), s("t"), opts(&["a", "b"])).unwrap();
    assert_eq!(c.vote(s("bob"), s("p"), &s("a")), Ok(()));
    assert_eq!(c.vote(s("bob"), s("p"), &s("b")), Err(VotingError::AlreadyVoted));
    assert_eq!(c.get_result(&s("p")), Ok(vec![(s("a"), 1), (s("b"), 0)]));
}

#[test]
fn voter_may_vote_in_each_poll() {
    let mut c = VotingContract::new();
    c.create_poll(s("alice"), s("p"), s("t"), opts(&["a"])).unwrap();
    c.create_poll(s("alice"), s("q"), s("t"), opts(&["a"])).unwrap();
    assert_eq!(c.vote(s("bob"), s("p"), &s("a")), Ok(()));
    assert_eq!(c.vote(s("bob"), s("q"), &s("a")), Ok(()));
    assert_eq!(c.get_result(&s("q")), Ok(vec![(s("a"), 1)]));
}

#[test]
fn invalid_choice_changes_nothing() {
    let mut c = VotingContract::new();
    c.create_poll(s("alice"), s("p"), s("t"), opts(&["a", "b"])).unwrap();
    assert_eq!(c.vote(s("bob"), s("p"), &s("z")), Err(VotingError::InvalidChoice));
    assert_eq!(c.get_result(&s("p")), Ok(vec![(s("a"), 0), (s("b"), 0)]));
    assert!(!c.has(&DataKey::Voter(s("p"), s("bob"))));
    // The failed attempt does not use up the voter's ballot.
    assert_eq!(c.vote(s("bob"), s("p"), &s("b")), Ok(()));
}

#[test]
fn closed_poll_refuses_votes_and_keeps_result() {
    let mut c = VotingContract::new();
    c.create_poll(s("alice"), s("p"), s("t"), opts(&["a", "b"])).unwrap();
    c.vote(s("bob"), s("p"), &s("b")).unwrap();
    assert_eq!(c.close_poll(&s("alice"), &s("p")), Ok(()));
    assert_eq!(c.vote(s("carol"), s("p"), &s("a")), Err(VotingError::PollClosed));
    assert_eq!(c.vote(s("bob"), s("p"), &s("b")), Err(VotingError::PollClosed));
    assert_eq!(c.get_result(&s("p")), Ok(vec![(s("a"), 0), (s("b"), 1)]));
    // Closing again is allowed and changes nothing.
    assert_eq!(c.close_poll(&s("alice"), &s("p")), Ok(()));
    assert_eq!(c.vote(s("dave"), s("p"), &s("a")), Err(VotingError::PollClosed));
}

#[test]
fn close_by_other_keeps_poll_open() {
    let mut c = VotingContract::new();
    c.create_poll(s("alice"), s("p"), s("t"), opts(&["a"])).unwrap();
    assert_eq!(c.close_poll(&s("bob"), &s("p")), Err(VotingError::NotCreator));
    assert_eq!(c.vote(s("bob"), s("p"), &s("a")), Ok(()));
}

#[test]
fn unknown_poll_is_not_found() {
    let mut c = VotingContract::new();
    assert_eq!(c.get_result(&s("nope")), Err(VotingError::PollNotFound));
    assert_eq!(c.vote(s("bob"), s("nope"), &s("a")), Err(VotingError::PollNotFound));
    assert_eq!(c.close_poll(&s("alice"), &s("nope")), Err(VotingError::PollNotFound));
}

#[test]
fn vote_checks_run_in_order() {
    let mut c = VotingContract::new();
    c.create_poll(s("alice"), s("p"), s("t"), opts(&["a"])).unwrap();
    c.vote(s("bob"), s("p"), &s("a")).unwrap();
    // Already voted is reported before an invalid choice.
    assert_eq!(c.vote(s("bob"), s("p"), &s("zzz")), Err(VotingError::AlreadyVoted));
    c.close_poll(&s("alice"), &s("p")).unwrap();
    // A closed poll is reported before an earlier vote.
    assert_eq!(c.vote(s("bob"), s("p"), &s("zzz")), Err(VotingError::PollClosed));
}

#[test]
fn records_are_visible_by_key() {
    let mut c = VotingContract::new();
    assert!(!c.has(&DataKey::Poll(s("p"))));
    c.create_poll(s("alice"), s("p"), s("t"), opts(&["a"])).unwrap();
    assert!(c.has(&DataKey::Poll(s("p"))));
    assert!(!c.has(&DataKey::Voter(s("p"), s("bob"))));
    c.vote(s("bob"), s("p"), &s("a")).unwrap();
    assert!(c.has(&DataKey::Voter(s("p"), s("bob"))));
    assert!(!c.has(&DataKey::Voter(s("q"), s("bob"))));
    assert!(!c.has(&DataKey::Poll(s("q"))));
}

fn stored(creator: &str, options: &[&str], votes: &[(&str, u32)], active: bool) -> Poll {
    Poll {
        creator: s(creator),
        title: s("t"),
        options: opts(options),
        votes: votes.iter().map(|(k, v)| (s(k), *v)).collect(),
        is_active: active,
    }
}

#[test]
fn well_formed_polls_are_recognised() {
    assert!(stored("a", &["x", "y"], &[("y", 4), ("x", 1)], true).is_well_formed());
    assert!(stored("a", &["x", "x"], &[("x", 0)], true).is_well_formed());
    assert!(stored("a", &[], &[], false).is_well_formed());
    // A repeated entry, a missing option, an entry that is no option.
    assert!(!stored("a", &["x"], &[("x", 1), ("x", 2)], true).is_well_formed());
    assert!(!stored("a", &["x", "y"], &[("x", 0)], true).is_well_formed());
    assert!(!stored("a", &["x"], &[("x", 0), ("z", 0)], true).is_well_formed());
}

#[test]
fn loaded_poll_takes_further_votes() {
    let mut c = VotingContract::new();
    assert!(c.load_poll(s("p"), stored("alice", &["x", "y"], &[("x", 2), ("y", 5)], true)));
    c.load_vote(s("p"), s("bob"));
    assert_eq!(c.vote(s("bob"), s("p"), &s("x")), Err(VotingError::AlreadyVoted));
    assert_eq!(c.vote(s("carol"), s("p"), &s("x")), Ok(()));
    assert_eq!(c.get_result(&s("p")), Ok(vec![(s("x"), 3), (s("y"), 5)]));
    let p = c.poll(&s("p")).unwrap();
    assert_eq!(p.creator, "alice");
    assert!(p.is_active);
    assert!(c.poll(&s("q")).is_none());
}

#[test]
fn load_refuses_taken_id_and_malformed_poll() {
    let mut c = VotingContract::new();
    assert!(!c.load_poll(s("p"), stored("alice", &["x"], &[], true)));
    assert!(!c.has(&DataKey::Poll(s("p"))));
    assert!(c.load_poll(s("p"), stored("alice", &["x"], &[("x", 0)], true)));
    assert!(!c.load_poll(s("p"), stored("bob", &["y"], &[("y", 9)], true)));
    assert_eq!(c.get_result(&s("p")), Ok(vec![(s("x"), 0)]));
}

#[test]
fn loaded_closed_poll_refuses_votes() {
    let mut c = VotingContract::new();
    assert!(c.load_poll(s("p"), stored("alice", &["x"], &[("x", 7)], false)));
    assert_eq!(c.vote(s("bob"), s("p"), &s("x")), Err(VotingError::PollClosed));
    assert_eq!(c.get_result(&s("p")), Ok(vec![(s("x"), 7)]));
}
