//! The poll registry: polls keyed by identifier and the record of who voted where.
use vstd::prelude::*;

use crate::assoc::{
    assoc_map, keys_unique, lemma_assoc_dom, lemma_assoc_index, lemma_assoc_update,
    lemma_push_unique,
};
use crate::tally::{
    bump, bump_at, contains_label, copy_tally, count_of, find_option, has_option, labels, lemma_bump,
    lemma_count_at, lemma_zero_tally, new_tally, tally_view, zero_tally, TallyView,
};

verus! {

/// Why an operation on the registry failed; a failed operation changes nothing.
#[derive(Debug, Clone, Copy, PartialEq, Eq, Structural)]
pub enum VotingError {
    AlreadyExists,
    PollNotFound,
    PollClosed,
    AlreadyVoted,
    InvalidChoice,
    NotCreator,
}

/// The keys under which the registry keeps its records: a poll by its
/// identifier, and the mark that a voter has voted in a poll.
pub enum DataKey {
    Poll(String),
    Voter(String, String),
}

/// One voting question.
pub struct Poll {
    pub creator: String,
    pub title: String,
    pub options: Vec<String>,
    pub votes: Vec<(String, u32)>,
    pub is_active: bool,
}

/// A poll in mathematical form.
pub struct PollView {
    pub creator: Seq<char>,
    pub title: Seq<char>,
    pub options: Seq<Seq<char>>,
    pub tally: TallyView,
    pub active: bool,
}

impl View for Poll {
    type V = PollView;

    open spec fn view(&self) -> PollView {
        PollView {
            creator: self.creator@,
            title: self.title@,
            options: labels(self.options@),
            tally: tally_view(self.votes@),
            active: self.is_active,
        }
    }
}

impl PollView {
    /// The tally holds each option exactly once and nothing else.
    pub open spec fn wf(self) -> bool {
        &&& keys_unique(self.tally)
        &&& forall|k: Seq<char>| has_option(self.tally, k) <==> self.options.contains(k)
    }
}

impl Poll {
    /// Whether the tally holds each option exactly once and nothing else.
    pub fn is_well_formed(&self) -> (r: bool)
        ensures
            r == self@.wf(),
    {
        let ghost t = tally_view(self.votes@);
        let ghost o = labels(self.options@);
        let mut i: usize = 0;
        while i < self.votes.len()
            invariant
                i <= self.votes@.len(),
                t == tally_view(self.votes@),
                forall|a: int, b: int| 0 <= a < i && 0 <= b < i && a != b ==> t[a].0 != t[b].0,
            decreases self.votes@.len() - i,
        {
            let mut j: usize = 0;
            while j < i
                invariant
                    j <= i < self.votes@.len(),
                    t == tally_view(self.votes@),
                    forall|a: int| 0 <= a < j ==> t[a].0 != t[i as int].0,
                decreases i - j,
            {
                if self.votes[j].0 == self.votes[i].0 {
                    assert(t[j as int].0 == t[i as int].0);
                    return false;
                }
                j = j + 1;
            }
            i = i + 1;
        }
        let mut k: usize = 0;
        while k < self.options.len()
            invariant
                k <= self.options@.len(),
                t == tally_view(self.votes@),
                o == labels(self.options@),
                forall|a: int| 0 <= a < k ==> has_option(t, #[trigger] o[a]),
            decreases self.options@.len() - k,
        {
            match find_option(&self.votes, &self.options[k]) {
                Some(w) => {
                    assert(t[w as int].0 == o[k as int]);
                },
                None => {
                    assert(o.contains(o[k as int]));
                    return false;
                },
            }
            k = k + 1;
        }
        let mut m: usize = 0;
        while m < self.votes.len()
            invariant
                m <= self.votes@.len(),
                t == tally_view(self.votes@),
                o == labels(self.options@),
                forall|a: int| 0 <= a < m ==> o.contains(#[trigger] t[a].0),
            decreases self.votes@.len() - m,
        {
            if !contains_label(&self.options, &self.votes[m].0) {
                assert(has_option(t, t[m as int].0));
                return false;
            }
            m = m + 1;
        }
        assert forall|x: Seq<char>| has_option(t, x) <==> o.contains(x) by {
            if o.contains(x) {
                let a = choose|a: int| 0 <= a < o.len() && o[a] == x;
                assert(has_option(t, o[a]));
            }
            if has_option(t, x) {
                let a = choose|a: int| 0 <= a < t.len() && t[a].0 == x;
                assert(o.contains(t[a].0));
            }
        }
        true
    }
}

/// A newly created poll.
pub open spec fn new_poll_view(
    creator: Seq<char>,
    title: Seq<char>,
    options: Seq<Seq<char>>,
) -> PollView {
    PollView { creator, title, options, tally: zero_tally(options), active: true }
}

/// The registry in mathematical form.
pub struct RegistryView {
    pub polls: Map<Seq<char>, PollView>,
    /// Pairs of (poll identifier, voter) that have voted.
    pub voted: Set<(Seq<char>, Seq<char>)>,
}

impl RegistryView {
    pub open spec fn wf(self) -> bool {
        forall|id: Seq<char>| #[trigger] self.polls.contains_key(id) ==> self.polls[id].wf()
    }

    pub open spec fn create_outcome(self, poll_id: Seq<char>) -> Result<(), VotingError> {
        if self.polls.contains_key(poll_id) {
            Err(VotingError::AlreadyExists)
        } else {
            Ok(())
        }
    }

    pub open spec fn after_create(
        self,
        creator: Seq<char>,
        poll_id: Seq<char>,
        title: Seq<char>,
        options: Seq<Seq<char>>,
    ) -> RegistryView {
        RegistryView {
            polls: self.polls.insert(poll_id, new_poll_view(creator, title, options)),
            voted: self.voted,
        }
    }

    /// The checks of a vote, in order: the poll exists, is open, the voter has
    /// not voted in it, and the choice is one of its options.
    pub open spec fn vote_outcome(
        self,
        voter: Seq<char>,
        poll_id: Seq<char>,
        choice: Seq<char>,
    ) -> Result<(), VotingError> {
        if !self.polls.contains_key(poll_id) {
            Err(VotingError::PollNotFound)
        } else if !self.polls[poll_id].active {
            Err(VotingError::PollClosed)
        } else if self.voted.contains((poll_id, voter)) {
            Err(VotingError::AlreadyVoted)
        } else if !has_option(self.polls[poll_id].tally, choice) {
            Err(VotingError::InvalidChoice)
        } else {
            Ok(())
        }
    }

    pub open spec fn after_vote(
        self,
        voter: Seq<char>,
        poll_id: Seq<char>,
        choice: Seq<char>,
    ) -> RegistryView {
        let p = self.polls[poll_id];
        RegistryView {
            polls: self.polls.insert(poll_id, PollView { tally: bump(p.tally, choice), ..p }),
            voted: self.voted.insert((poll_id, voter)),
        }
    }

    /// One more vote would not overflow the count of `choice`.
    pub open spec fn vote_fits(self, poll_id: Seq<char>, choice: Seq<char>) -> bool {
        self.polls.contains_key(poll_id) ==> count_of(self.polls[poll_id].tally, choice)
            < u32::MAX
    }

    pub open spec fn close_outcome(self, creator: Seq<char>, poll_id: Seq<char>) -> Result<
        (),
        VotingError,
    > {
        if !self.polls.contains_key(poll_id) {
            Err(VotingError::PollNotFound)
        } else if self.polls[poll_id].creator != creator {
            Err(VotingError::NotCreator)
        } else {
            Ok(())
        }
    }

    pub open spec fn after_close(self, poll_id: Seq<char>) -> RegistryView {
        let p = self.polls[poll_id];
        RegistryView {
            polls: self.polls.insert(poll_id, PollView { active: false, ..p }),
            voted: self.voted,
        }
    }
}

/// The polls of a registry as (identifier, poll) pairs in mathematical form.
pub open spec fn poll_entries(s: Seq<(String, Poll)>) -> Seq<(Seq<char>, PollView)> {
    s.map_values(|e: (String, Poll)| (e.0@, e.1@))
}

/// The (poll identifier, voter) pairs of a list of vote records.
pub open spec fn voter_set(s: Seq<(String, String)>) -> Set<(Seq<char>, Seq<char>)> {
    s.map_values(|e: (String, String)| (e.0@, e.1@)).to_set()
}

/// Recording one more vote adds its pair to the set of votes.
proof fn lemma_voter_push(s: Seq<(String, String)>, x: (String, String))
    ensures
        voter_set(s.push(x)) == voter_set(s).insert((x.0@, x.1@)),
{
    let om = s.map_values(|e: (String, String)| (e.0@, e.1@));
    let nm = s.push(x).map_values(|e: (String, String)| (e.0@, e.1@));
    assert(nm =~= om.push((x.0@, x.1@)));
    assert forall|y: (Seq<char>, Seq<char>)| nm.contains(y) <==> om.contains(y) || y == (
        x.0@,
        x.1@,
    ) by {
        if om.contains(y) {
            let w = choose|w: int| 0 <= w < om.len() && om[w] == y;
            assert(nm[w] == y);
        }
        if y == (x.0@, x.1@) {
            assert(nm[om.len() as int] == y);
        }
        if nm.contains(y) && y != (x.0@, x.1@) {
            let w = choose|w: int| 0 <= w < nm.len() && nm[w] == y;
            assert(om[w] == y);
        }
    }
    assert(voter_set(s.push(x)) =~= voter_set(s).insert((x.0@, x.1@)));
}

/// A ledger of polls and of the votes cast in them.
pub struct VotingContract {
    polls: Vec<(String, Poll)>,
    voters: Vec<(String, String)>,
}

impl View for VotingContract {
    type V = RegistryView;

    closed spec fn view(&self) -> RegistryView {
        RegistryView {
            polls: assoc_map(poll_entries(self.polls@)),
            voted: voter_set(self.voters@),
        }
    }
}

impl VotingContract {
    /// Each poll identifier occurs once, and each poll is well formed.
    pub closed spec fn wf(&self) -> bool {
        &&& keys_unique(poll_entries(self.polls@))
        &&& forall|i: int|
            0 <= i < self.polls@.len() ==> (#[trigger] poll_entries(self.polls@)[i]).1.wf()
    }

    /// A well-formed registry has well-formed polls.
    pub proof fn lemma_view_wf(&self)
        requires
            self.wf(),
        ensures
            self@.wf(),
    {
        let e = poll_entries(self.polls@);
        assert forall|id: Seq<char>| #[trigger] self@.polls.contains_key(id) implies self@.polls[
            id
        ].wf() by {
            lemma_assoc_dom(e, id);
            let i = choose|i: int| 0 <= i < e.len() && e[i].0 == id;
            lemma_assoc_index(e, i);
        }
    }

    /// An empty registry.
    pub fn new() -> (r: VotingContract)
        ensures
            r.wf(),
            r@.polls == Map::<Seq<char>, PollView>::empty(),
            r@.voted == Set::<(Seq<char>, Seq<char>)>::empty(),
    {
        let r = VotingContract { polls: Vec::new(), voters: Vec::new() };
        assert(poll_entries(r.polls@) =~= Seq::empty());
        assert(voter_set(r.voters@) =~= Set::empty());
        r
    }

    /// Finds the poll stored under `poll_id`.
    fn find_poll(&self, poll_id: &String) -> (r: Option<usize>)
        requires
            self.wf(),
        ensures
            match r {
                Some(i) => {
                    &&& i < self.polls@.len()
                    &&& self.polls@[i as int].0@ == poll_id@
                    &&& self@.polls.contains_key(poll_id@)
                    &&& self@.polls[poll_id@] == self.polls@[i as int].1@
                },
                None => !self@.polls.contains_key(poll_id@),
            },
    {
        let ghost e = poll_entries(self.polls@);
        let mut i: usize = 0;
        while i < self.polls.len()
            invariant
                i <= self.polls@.len(),
                self.wf(),
                e == poll_entries(self.polls@),
                forall|j: int| 0 <= j < i ==> self.polls@[j].0@ != poll_id@,
            decreases self.polls@.len() - i,
        {
            if self.polls[i].0 == *poll_id {
                proof {
                    lemma_assoc_index(e, i as int);
                }
                return Some(i);
            }
            i = i + 1;
        }
        proof {
            lemma_assoc_dom(e, poll_id@);
            if self@.polls.contains_key(poll_id@) {
                let j = choose|j: int| 0 <= j < e.len() && e[j].0 == poll_id@;
                assert(self.polls@[j].0@ == poll_id@);
            }
        }
        None
    }

    /// Whether `voter` has voted in the poll `poll_id`.
    fn has_voted(&self, poll_id: &String, voter: &String) -> (r: bool)
        ensures
            r == self@.voted.contains((poll_id@, voter@)),
    {
        let ghost m = self.voters@.map_values(|e: (String, String)| (e.0@, e.1@));
        let mut i: usize = 0;
        while i < self.voters.len()
            invariant
                i <= self.voters@.len(),
                m == self.voters@.map_values(|e: (String, String)| (e.0@, e.1@)),
                forall|j: int| 0 <= j < i ==> m[j] != (poll_id@, voter@),
            decreases self.voters@.len() - i,
        {
            if self.voters[i].0 == *poll_id && self.voters[i].1 == *voter {
                assert(m[i as int] == (poll_id@, voter@));
                assert(m.contains((poll_id@, voter@)));
                return true;
            }
            i = i + 1;
        }
        false
    }

    /// Whether the registry holds a record under `key`.
    pub fn has(&self, key: &DataKey) -> (r: bool)
        requires
            self.wf(),
        ensures
            r == match key {
                DataKey::Poll(id) => self@.polls.contains_key(id@),
                DataKey::Voter(id, voter) => self@.voted.contains((id@, voter@)),
            },
    {
        match key {
            DataKey::Poll(id) => self.find_poll(id).is_some(),
            DataKey::Voter(id, voter) => self.has_voted(id, voter),
        }
    }

    /// Casts `voter`'s vote for `choice` in the poll `poll_id`. The checks run
    /// in the order of `vote_outcome`; on success the count of `choice` rises
    /// by one and the voter is recorded as having voted in the poll.
    pub fn vote(&mut self, voter: String, poll_id: String, choice: &String) -> (r: Result<
        (),
        VotingError,
    >)
        requires
            old(self).wf(),
            old(self)@.vote_fits(poll_id@, choice@),
        ensures
            final(self).wf(),
            r == old(self)@.vote_outcome(voter@, poll_id@, choice@),
            r is Ok ==> final(self)@ == old(self)@.after_vote(voter@, poll_id@, choice@),
            r is Err ==> final(self)@ == old(self)@,
    {
        let i = match self.find_poll(&poll_id) {
            Some(i) => i,
            None => return Err(VotingError::PollNotFound),
        };
        if !self.polls[i].1.is_active {
            return Err(VotingError::PollClosed);
        }
        if self.has_voted(&poll_id, &voter) {
            return Err(VotingError::AlreadyVoted);
        }
        let j = match find_option(&self.polls[i].1.votes, choice) {
            Some(j) => j,
            None => return Err(VotingError::InvalidChoice),
        };
        let ghost old_polls = self.polls@;
        let ghost old_voters = self.voters@;
        let ghost e = poll_entries(old_polls);
        let ghost p = e[i as int].1;
        proof {
            assert(p.tally[j as int].0 == choice@);
            assert(has_option(p.tally, choice@));
            lemma_count_at(p.tally, j as int);
        }
        let (id, mut poll) = self.polls.remove(i);
        bump_at(&mut poll.votes, j);
        let ghost np = poll@;
        self.polls.insert(i, (id, poll));
        self.voters.push((poll_id, voter));
        proof {
            assert(self.polls@ =~= old_polls.update(i as int, self.polls@[i as int]));
            assert(np == PollView { tally: bump(p.tally, choice@), ..p });
            assert(poll_entries(self.polls@) =~= e.update(i as int, (e[i as int].0, np)));
            lemma_assoc_update(e, i as int, np);
            assert forall|k: Seq<char>| has_option(np.tally, k) <==> np.options.contains(k) by {
                lemma_bump(p.tally, choice@, k);
            }
            lemma_bump(p.tally, choice@, choice@);
            let ne = poll_entries(self.polls@);
            assert forall|a: int, b: int|
                0 <= a < ne.len() && 0 <= b < ne.len() && a != b implies ne[a].0 != ne[b].0 by {
                assert(ne[a].0 == e[a].0);
                assert(ne[b].0 == e[b].0);
            }
            assert forall|a: int| 0 <= a < self.polls@.len() implies (#[trigger] poll_entries(
                self.polls@,
            )[a]).1.wf() by {
                if a != i {
                    assert(ne[a] == e[a]);
                }
            }
            lemma_voter_push(old_voters, self.voters@.last());
            assert(self.voters@ == old_voters.push(self.voters@.last()));
        }
        Ok(())
    }

    /// Creates the poll `poll_id` with a zero count for each distinct option,
    /// open for voting. Fails when the identifier is taken.
    pub fn create_poll(
        &mut self,
        creator: String,
        poll_id: String,
        title: String,
        options: Vec<String>,
    ) -> (r: Result<(), VotingError>)
        requires
            old(self).wf(),
        ensures
            final(self).wf(),
            r == old(self)@.create_outcome(poll_id@),
            r is Ok ==> final(self)@ == old(self)@.after_create(
                creator@,
                poll_id@,
                title@,
                labels(options@),
            ),
            r is Err ==> final(self)@ == old(self)@,
    {
        if self.find_poll(&poll_id).is_some() {
            return Err(VotingError::AlreadyExists);
        }
        let votes = new_tally(&options);
        let poll = Poll { creator, title, options, votes, is_active: true };
        let ghost old_polls = self.polls@;
        let ghost e = poll_entries(old_polls);
        let ghost np = poll@;
        let ghost key = poll_id@;
        self.polls.push((poll_id, poll));
        proof {
            lemma_zero_tally(np.options);
            lemma_assoc_dom(e, key);
            assert forall|a: int| 0 <= a < e.len() implies e[a].0 != key by {
                if e[a].0 == key {
                    assert(assoc_map(e).contains_key(key));
                }
            }
            lemma_push_unique(e, key, np);
            let ne = poll_entries(self.polls@);
            assert(ne =~= e.push((key, np)));
            assert(ne.drop_last() =~= e);
            assert forall|a: int| 0 <= a < self.polls@.len() implies (#[trigger] poll_entries(
                self.polls@,
            )[a]).1.wf() by {
                if a < e.len() {
                    assert(ne[a] == e[a]);
                }
            }
        }
        Ok(())
    }

    /// The current counts of the poll `poll_id`, in the order of its options.
    pub fn get_result(&self, poll_id: &String) -> (r: Result<Vec<(String, u32)>, VotingError>)
        requires
            self.wf(),
        ensures
            match r {
                Ok(v) => self@.polls.contains_key(poll_id@) && tally_view(v@)
                    == self@.polls[poll_id@].tally,
                Err(e) => !self@.polls.contains_key(poll_id@) && e == VotingError::PollNotFound,
            },
    {
        match self.find_poll(poll_id) {
            Some(i) => Ok(copy_tally(&self.polls[i].1.votes)),
            None => Err(VotingError::PollNotFound),
        }
    }

    /// Closes the poll `poll_id` for voting; only its creator may do so, and
    /// closing a closed poll changes nothing.
    pub fn close_poll(&mut self, creator: &String, poll_id: &String) -> (r: Result<
        (),
        VotingError,
    >)
        requires
            old(self).wf(),
        ensures
            final(self).wf(),
            r == old(self)@.close_outcome(creator@, poll_id@),
            r is Ok ==> final(self)@ == old(self)@.after_close(poll_id@),
            r is Err ==> final(self)@ == old(self)@,
    {
        let i = match self.find_poll(poll_id) {
            Some(i) => i,
            None => return Err(VotingError::PollNotFound),
        };
        if self.polls[i].1.creator != *creator {
            return Err(VotingError::NotCreator);
        }
        let ghost old_polls = self.polls@;
        let ghost e = poll_entries(old_polls);
        let ghost p = e[i as int].1;
        let (id, mut poll) = self.polls.remove(i);
        poll.is_active = false;
        let ghost np = poll@;
        self.polls.insert(i, (id, poll));
        proof {
            assert(np == PollView { active: false, ..p });
            assert(poll_entries(self.polls@) =~= e.update(i as int, (e[i as int].0, np)));
            lemma_assoc_update(e, i as int, np);
            let ne = poll_entries(self.polls@);
            assert forall|a: int, b: int|
                0 <= a < ne.len() && 0 <= b < ne.len() && a != b implies ne[a].0 != ne[b].0 by {
                assert(ne[a].0 == e[a].0);
                assert(ne[b].0 == e[b].0);
            }
            assert forall|a: int| 0 <= a < self.polls@.len() implies (#[trigger] poll_entries(
                self.polls@,
            )[a]).1.wf() by {
                if a != i {
                    assert(ne[a] == e[a]);
                }
            }
        }
        Ok(())
    }

    /// The poll stored under `poll_id`.
    pub fn poll(&self, poll_id: &String) -> (r: Option<&Poll>)
        requires
            self.wf(),
        ensures
            match r {
                Some(p) => self@.polls.contains_key(poll_id@) && p@ == self@.polls[poll_id@],
                None => !self@.polls.contains_key(poll_id@),
            },
    {
        match self.find_poll(poll_id) {
            Some(i) => Some(&self.polls[i].1),
            None => None,
        }
    }

    /// Adds an existing poll under `poll_id`, as kept elsewhere. Refused,
    /// with nothing changed, where the identifier is taken or the poll is not
    /// well formed.
    pub fn load_poll(&mut self, poll_id: String, poll: Poll) -> (r: bool)
        requires
            old(self).wf(),
        ensures
            final(self).wf(),
            r == (!old(self)@.polls.contains_key(poll_id@) && poll@.wf()),
            r ==> final(self)@ == (RegistryView {
                polls: old(self)@.polls.insert(poll_id@, poll@),
                voted: old(self)@.voted,
            }),
            !r ==> final(self)@ == old(self)@,
    {
        if !poll.is_well_formed() || self.find_poll(&poll_id).is_some() {
            return false;
        }
        let ghost e = poll_entries(self.polls@);
        let ghost np = poll@;
        let ghost key = poll_id@;
        self.polls.push((poll_id, poll));
        proof {
            lemma_assoc_dom(e, key);
            assert forall|a: int| 0 <= a < e.len() implies e[a].0 != key by {
                if e[a].0 == key {
                    assert(assoc_map(e).contains_key(key));
                }
            }
            lemma_push_unique(e, key, np);
            let ne = poll_entries(self.polls@);
            assert(ne =~= e.push((key, np)));
            assert(ne.drop_last() =~= e);
            assert forall|a: int| 0 <= a < self.polls@.len() implies (#[trigger] poll_entries(
                self.polls@,
            )[a]).1.wf() by {
                if a < e.len() {
                    assert(ne[a] == e[a]);
                }
            }
        }
        true
    }

    /// Records that `voter` has voted in the poll `poll_id`, as kept elsewhere.
    pub fn load_vote(&mut self, poll_id: String, voter: String)
        requires
            old(self).wf(),
        ensures
            final(self).wf(),
            final(self)@ == (RegistryView {
                polls: old(self)@.polls,
                voted: old(self)@.voted.insert((poll_id@, voter@)),
            }),
    {
        let ghost old_voters = self.voters@;
        self.voters.push((poll_id, voter));
        proof {
            lemma_voter_push(old_voters, self.voters@.last());
            assert(self.voters@ == old_voters.push(self.voters@.last()));
        }
    }
}

} // verus!
