//! Properties of the registry that span several operations.
use vstd::prelude::*;

use crate::assoc::keys_unique;
use crate::registry::{PollView, RegistryView, VotingError};
use crate::tally::{
    bump, count_of, has_option, lemma_bump, lemma_count_zero, lemma_zero_tally, total,
};

verus! {

/// The registry after a call of `vote`: changed on success, unchanged on failure.
pub open spec fn apply_vote(
    s: RegistryView,
    voter: Seq<char>,
    poll_id: Seq<char>,
    choice: Seq<char>,
) -> RegistryView {
    if s.vote_outcome(voter, poll_id, choice) is Ok {
        s.after_vote(voter, poll_id, choice)
    } else {
        s
    }
}

/// The registry after each (voter, choice) ballot, in order, is cast in `poll_id`.
pub open spec fn apply_ballots(
    s: RegistryView,
    poll_id: Seq<char>,
    ballots: Seq<(Seq<char>, Seq<char>)>,
) -> RegistryView
    decreases ballots.len(),
{
    if ballots.len() == 0 {
        s
    } else {
        apply_vote(
            apply_ballots(s, poll_id, ballots.drop_last()),
            ballots.last().0,
            poll_id,
            ballots.last().1,
        )
    }
}

/// How many ballots choose `k`.
pub open spec fn votes_for(ballots: Seq<(Seq<char>, Seq<char>)>, k: Seq<char>) -> nat
    decreases ballots.len(),
{
    if ballots.len() == 0 {
        0
    } else {
        votes_for(ballots.drop_last(), k) + if ballots.last().1 == k {
            1nat
        } else {
            0nat
        }
    }
}

/// No voter casts two of the ballots.
pub open spec fn distinct_voters(ballots: Seq<(Seq<char>, Seq<char>)>) -> bool {
    forall|i: int, j: int|
        0 <= i < ballots.len() && 0 <= j < ballots.len() && i != j ==> ballots[i].0 != ballots[j].0
}

/// Creating a poll under a free identifier succeeds, and its result then has
/// exactly the given options as keys, each once, every count zero.
pub proof fn lemma_create_then_result(
    s: RegistryView,
    creator: Seq<char>,
    poll_id: Seq<char>,
    title: Seq<char>,
    options: Seq<Seq<char>>,
)
    requires
        !s.polls.contains_key(poll_id),
    ensures
        s.create_outcome(poll_id) == Ok::<(), VotingError>(()),
        s.after_create(creator, poll_id, title, options).polls.contains_key(poll_id),
        ({
            let t = s.after_create(creator, poll_id, title, options).polls[poll_id].tally;
            &&& keys_unique(t)
            &&& forall|k: Seq<char>| has_option(t, k) <==> options.contains(k)
            &&& forall|i: int| 0 <= i < t.len() ==> (#[trigger] t[i]).1 == 0
        }),
{
    lemma_zero_tally(options);
}

/// A second creation under the same identifier fails with `AlreadyExists`.
pub proof fn lemma_create_twice(
    s: RegistryView,
    creator: Seq<char>,
    poll_id: Seq<char>,
    title: Seq<char>,
    options: Seq<Seq<char>>,
)
    requires
        !s.polls.contains_key(poll_id),
    ensures
        s.create_outcome(poll_id) is Ok,
        s.after_create(creator, poll_id, title, options).create_outcome(poll_id) == Err::<
            (),
            VotingError,
        >(VotingError::AlreadyExists),
{
}

/// Ballots of distinct voters, none of whom has voted in the open poll
/// `poll_id`, each for one of its options, all succeed: each option's count
/// rises by the number of ballots that choose it, and the sum of the counts
/// by the number of ballots.
pub proof fn lemma_ballots_counted(
    s: RegistryView,
    poll_id: Seq<char>,
    ballots: Seq<(Seq<char>, Seq<char>)>,
)
    requires
        s.wf(),
        s.polls.contains_key(poll_id),
        s.polls[poll_id].active,
        distinct_voters(ballots),
        forall|i: int| 0 <= i < ballots.len() ==> !s.voted.contains((poll_id, #[trigger] ballots[i].0)),
        forall|i: int| 0 <= i < ballots.len() ==> s.polls[poll_id].options.contains(#[trigger] ballots[i].1),
    ensures
        ({
            let r = apply_ballots(s, poll_id, ballots);
            &&& r.wf()
            &&& r.polls.contains_key(poll_id)
            &&& r.polls[poll_id].active
            &&& r.polls[poll_id].options == s.polls[poll_id].options
            &&& forall|k: Seq<char>|
                count_of(r.polls[poll_id].tally, k) == count_of(s.polls[poll_id].tally, k)
                    + votes_for(ballots, k)
            &&& total(r.polls[poll_id].tally) == total(s.polls[poll_id].tally) + ballots.len()
            &&& forall|v: Seq<char>| #[trigger]
                r.voted.contains((poll_id, v)) <==> s.voted.contains((poll_id, v)) || exists|i: int|
                    0 <= i < ballots.len() && ballots[i].0 == v
        }),
    decreases ballots.len(),
{
    if ballots.len() > 0 {
        let d = ballots.drop_last();
        let b = ballots.last();
        assert forall|i: int| 0 <= i < d.len() implies !s.voted.contains((poll_id, #[trigger] d[i].0)) by {
            assert(d[i] == ballots[i]);
        }
        assert forall|i: int| 0 <= i < d.len() implies s.polls[poll_id].options.contains(#[trigger] d[i].1) by {
            assert(d[i] == ballots[i]);
        }
        assert forall|i: int, j: int| 0 <= i < d.len() && 0 <= j < d.len() && i != j implies d[i].0 != d[j].0 by {
            assert(d[i] == ballots[i]);
            assert(d[j] == ballots[j]);
        }
        lemma_ballots_counted(s, poll_id, d);
        let r0 = apply_ballots(s, poll_id, d);
        let p = r0.polls[poll_id];
        assert(ballots[ballots.len() - 1] == b);
        assert(!r0.voted.contains((poll_id, b.0))) by {
            if r0.voted.contains((poll_id, b.0)) {
                assert(!s.voted.contains((poll_id, ballots[ballots.len() - 1].0)));
                let i = choose|i: int| 0 <= i < d.len() && d[i].0 == b.0;
                assert(ballots[i].0 == b.0);
            }
        }
        assert(p.options.contains(ballots[ballots.len() - 1].1));
        assert(has_option(p.tally, b.1));
        assert(r0.vote_outcome(b.0, poll_id, b.1) is Ok);
        let r = apply_ballots(s, poll_id, ballots);
        assert(r == r0.after_vote(b.0, poll_id, b.1));
        let np = PollView { tally: bump(p.tally, b.1), ..p };
        assert(r.polls[poll_id] == np);
        assert forall|k: Seq<char>|
            count_of(np.tally, k) == count_of(s.polls[poll_id].tally, k) + votes_for(ballots, k)
            && (has_option(np.tally, k) <==> np.options.contains(k)) by {
            lemma_bump(p.tally, b.1, k);
        }
        lemma_bump(p.tally, b.1, b.1);
        assert forall|id: Seq<char>| #[trigger] r.polls.contains_key(id) implies r.polls[id].wf() by {
            if id != poll_id {
                assert(r0.polls.contains_key(id));
            }
        }
        assert forall|v: Seq<char>| #[trigger]
            r.voted.contains((poll_id, v)) <==> s.voted.contains((poll_id, v)) || exists|i: int|
                0 <= i < ballots.len() && ballots[i].0 == v by {
            if exists|i: int| 0 <= i < d.len() && d[i].0 == v {
                let i = choose|i: int| 0 <= i < d.len() && d[i].0 == v;
                assert(ballots[i].0 == v);
            }
            if exists|i: int| 0 <= i < ballots.len() && ballots[i].0 == v {
                let i = choose|i: int| 0 <= i < ballots.len() && ballots[i].0 == v;
                if i < d.len() {
                    assert(d[i].0 == v);
                }
            }
        }
    }
}

/// On a freshly created poll, ballots of distinct voters for its options leave
/// each option with the number of voters who chose it, and counts summing to
/// the number of votes cast.
pub proof fn lemma_fresh_poll_counts(
    s: RegistryView,
    creator: Seq<char>,
    poll_id: Seq<char>,
    title: Seq<char>,
    options: Seq<Seq<char>>,
    ballots: Seq<(Seq<char>, Seq<char>)>,
)
    requires
        s.wf(),
        !s.polls.contains_key(poll_id),
        distinct_voters(ballots),
        forall|i: int| 0 <= i < ballots.len() ==> !s.voted.contains((poll_id, #[trigger] ballots[i].0)),
        forall|i: int| 0 <= i < ballots.len() ==> options.contains(#[trigger] ballots[i].1),
    ensures
        ({
            let r = apply_ballots(s.after_create(creator, poll_id, title, options), poll_id, ballots);
            &&& forall|k: Seq<char>| options.contains(k) ==> count_of(r.polls[poll_id].tally, k) == votes_for(ballots, k)
            &&& total(r.polls[poll_id].tally) == ballots.len()
        }),
{
    let c = s.after_create(creator, poll_id, title, options);
    lemma_zero_tally(options);
    assert forall|id: Seq<char>| #[trigger] c.polls.contains_key(id) implies c.polls[id].wf() by {
        if id != poll_id {
            assert(s.polls.contains_key(id));
        }
    }
    lemma_ballots_counted(c, poll_id, ballots);
    assert forall|k: Seq<char>| count_of(c.polls[poll_id].tally, k) == 0 by {
        lemma_count_zero(c.polls[poll_id].tally, k);
    }
}

/// A voter's second vote in a poll fails with `AlreadyVoted`, whatever it chooses.
pub proof fn lemma_vote_twice(
    s: RegistryView,
    voter: Seq<char>,
    poll_id: Seq<char>,
    choice: Seq<char>,
    choice2: Seq<char>,
)
    requires
        s.vote_outcome(voter, poll_id, choice) is Ok,
    ensures
        s.after_vote(voter, poll_id, choice).vote_outcome(voter, poll_id, choice2) == Err::<
            (),
            VotingError,
        >(VotingError::AlreadyVoted),
{
}

/// In an open poll where the voter has not voted, a choice outside the
/// poll's options fails with `InvalidChoice`.
pub proof fn lemma_invalid_choice(
    s: RegistryView,
    voter: Seq<char>,
    poll_id: Seq<char>,
    choice: Seq<char>,
)
    requires
        s.wf(),
        s.polls.contains_key(poll_id),
        s.polls[poll_id].active,
        !s.voted.contains((poll_id, voter)),
        !s.polls[poll_id].options.contains(choice),
    ensures
        s.vote_outcome(voter, poll_id, choice) == Err::<(), VotingError>(
            VotingError::InvalidChoice,
        ),
{
}

/// After its creator closes a poll, every vote in it fails with `PollClosed`,
/// and its counts are those it had before closing.
pub proof fn lemma_closed_poll(
    s: RegistryView,
    creator: Seq<char>,
    poll_id: Seq<char>,
    voter: Seq<char>,
    choice: Seq<char>,
)
    requires
        s.close_outcome(creator, poll_id) is Ok,
    ensures
        s.after_close(poll_id).vote_outcome(voter, poll_id, choice) == Err::<(), VotingError>(
            VotingError::PollClosed,
        ),
        s.after_close(poll_id).polls[poll_id].tally == s.polls[poll_id].tally,
{
}

/// Closing a poll as anyone but its creator fails with `NotCreator`.
pub proof fn lemma_close_by_other(s: RegistryView, caller: Seq<char>, poll_id: Seq<char>)
    requires
        s.polls.contains_key(poll_id),
        caller != s.polls[poll_id].creator,
    ensures
        s.close_outcome(caller, poll_id) == Err::<(), VotingError>(VotingError::NotCreator),
{
}

} // verus!
