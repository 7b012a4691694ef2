//! Per-option vote counts, as a list of (option, count) pairs with distinct options.
use vstd::prelude::*;

use crate::assoc::keys_unique;

verus! {

/// A tally in mathematical form: each option's label with its count.
pub type TallyView = Seq<(Seq<char>, nat)>;

/// The labels of a list of strings.
pub open spec fn labels(s: Seq<String>) -> Seq<Seq<char>> {
    s.map_values(|x: String| x@)
}

/// The mathematical form of a stored tally.
pub open spec fn tally_view(v: Seq<(String, u32)>) -> TallyView {
    v.map_values(|e: (String, u32)| (e.0@, e.1 as nat))
}

/// The option `k` has an entry in the tally.
pub open spec fn has_option(t: TallyView, k: Seq<char>) -> bool {
    exists|i: int| 0 <= i < t.len() && t[i].0 == k
}

/// The votes counted for option `k` (zero where it has no entry).
pub open spec fn count_of(t: TallyView, k: Seq<char>) -> nat
    decreases t.len(),
{
    if t.len() == 0 {
        0
    } else {
        count_of(t.drop_last(), k) + if t.last().0 == k {
            t.last().1
        } else {
            0nat
        }
    }
}

/// The sum of all counts.
pub open spec fn total(t: TallyView) -> nat
    decreases t.len(),
{
    if t.len() == 0 {
        0
    } else {
        total(t.drop_last()) + t.last().1
    }
}

/// The tally after one more vote for `k`.
pub open spec fn bump(t: TallyView, k: Seq<char>) -> TallyView {
    t.map_values(|e: (Seq<char>, nat)| if e.0 == k { (e.0, (e.1 + 1) as nat) } else { e })
}

/// The tally of a new poll: each distinct option once, in order of first
/// occurrence, with a count of zero.
pub open spec fn zero_tally(options: Seq<Seq<char>>) -> TallyView
    decreases options.len(),
{
    if options.len() == 0 {
        Seq::empty()
    } else {
        let t = zero_tally(options.drop_last());
        if has_option(t, options.last()) {
            t
        } else {
            t.push((options.last(), 0nat))
        }
    }
}

/// With distinct options, the count of an entry's option is that entry's count.
pub proof fn lemma_count_at(t: TallyView, i: int)
    requires
        keys_unique(t),
        0 <= i < t.len(),
    ensures
        count_of(t, t[i].0) == t[i].1,
    decreases t.len(),
{
    if i < t.len() - 1 {
        assert(t.drop_last()[i] == t[i]);
        lemma_count_at(t.drop_last(), i);
    } else {
        lemma_count_absent(t.drop_last(), t[i].0);
    }
}

/// An option without an entry has a count of zero.
pub proof fn lemma_count_absent(t: TallyView, k: Seq<char>)
    requires
        keys_unique(t),
        forall|i: int| 0 <= i < t.len() ==> t[i].0 != k,
    ensures
        count_of(t, k) == 0,
    decreases t.len(),
{
    if t.len() > 0 {
        assert forall|i: int| 0 <= i < t.len() - 1 implies t.drop_last()[i].0 != k by {
            assert(t.drop_last()[i] == t[i]);
        }
        lemma_count_absent(t.drop_last(), k);
    }
}

/// A tally whose counts are all zero counts zero for every option.
pub proof fn lemma_count_zero(t: TallyView, k: Seq<char>)
    requires
        forall|i: int| 0 <= i < t.len() ==> (#[trigger] t[i]).1 == 0,
    ensures
        count_of(t, k) == 0,
    decreases t.len(),
{
    if t.len() > 0 {
        assert(t[t.len() - 1].1 == 0);
        assert forall|i: int| 0 <= i < t.len() - 1 implies (#[trigger] t.drop_last()[i]).1 == 0 by {
            assert(t.drop_last()[i] == t[i]);
        }
        lemma_count_zero(t.drop_last(), k);
    }
}

/// One more vote for `k` keeps the options and raises the count of `k`
/// alone, by one where `k` has an entry.
pub proof fn lemma_bump(t: TallyView, k: Seq<char>, j: Seq<char>)
    requires
        keys_unique(t),
    ensures
        keys_unique(bump(t, k)),
        bump(t, k).len() == t.len(),
        forall|i: int| 0 <= i < t.len() ==> (#[trigger] bump(t, k)[i]).0 == t[i].0,
        has_option(bump(t, k), j) == has_option(t, j),
        count_of(bump(t, k), j) == count_of(t, j) + if j == k && has_option(t, k) {
            1nat
        } else {
            0nat
        },
        total(bump(t, k)) == total(t) + if has_option(t, k) {
            1nat
        } else {
            0nat
        },
    decreases t.len(),
{
    let b = bump(t, k);
    assert forall|i: int| 0 <= i < t.len() implies (#[trigger] b[i]).0 == t[i].0 by {}
    if has_option(b, j) {
        let i = choose|i: int| 0 <= i < b.len() && b[i].0 == j;
        assert(t[i].0 == j);
    }
    if has_option(t, j) {
        let i = choose|i: int| 0 <= i < t.len() && t[i].0 == j;
        assert(b[i].0 == j);
    }
    if t.len() > 0 {
        let d = t.drop_last();
        assert(b.drop_last() =~= bump(d, k));
        assert(keys_unique(d));
        lemma_bump(d, k, j);
        if t.last().0 == k {
            assert forall|i: int| 0 <= i < d.len() implies d[i].0 != k by {
                assert(d[i] == t[i]);
                assert(t[i].0 != t[t.len() - 1].0);
            }
            assert(!has_option(d, k));
            assert(has_option(t, k)) by {
                assert(t[t.len() - 1].0 == k);
            }
        } else {
            if has_option(t, k) {
                let i = choose|i: int| 0 <= i < t.len() && t[i].0 == k;
                assert(d[i].0 == k);
            }
            if has_option(d, k) {
                let i = choose|i: int| 0 <= i < d.len() && d[i].0 == k;
                assert(t[i].0 == k);
            }
        }
    }
}

/// A new poll's tally has distinct options, exactly those given, all at zero.
pub proof fn lemma_zero_tally(options: Seq<Seq<char>>)
    ensures
        keys_unique(zero_tally(options)),
        forall|i: int|
            0 <= i < zero_tally(options).len() ==> (#[trigger] zero_tally(options)[i]).1 == 0,
        forall|k: Seq<char>| has_option(zero_tally(options), k) <==> options.contains(k),
        total(zero_tally(options)) == 0,
    decreases options.len(),
{
    if options.len() > 0 {
        let d = options.drop_last();
        let t = zero_tally(d);
        lemma_zero_tally(d);
        let z = zero_tally(options);
        assert forall|k: Seq<char>| has_option(z, k) <==> options.contains(k) by {
            if options.contains(k) {
                let i = choose|i: int| 0 <= i < options.len() && options[i] == k;
                if i < options.len() - 1 {
                    assert(d[i] == k);
                    assert(d.contains(k));
                    let w = choose|w: int| 0 <= w < t.len() && t[w].0 == k;
                    assert(z[w] == t[w]);
                } else if !has_option(t, options.last()) {
                    assert(z[t.len() as int].0 == k);
                }
            }
            if has_option(z, k) {
                let w = choose|w: int| 0 <= w < z.len() && z[w].0 == k;
                if w < t.len() {
                    assert(z[w] == t[w]);
                    assert(has_option(t, k));
                    assert(d.contains(k));
                    let i = choose|i: int| 0 <= i < d.len() && d[i] == k;
                    assert(options[i] == k);
                } else {
                    assert(options[options.len() - 1] == k);
                }
            }
        }
        if !has_option(t, options.last()) {
            crate::assoc::lemma_push_unique(t, options.last(), 0nat);
            assert(z.drop_last() =~= t);
        }
    }
}

/// Finds the entry of option `k`.
pub fn find_option(votes: &Vec<(String, u32)>, k: &String) -> (r: Option<usize>)
    ensures
        match r {
            Some(i) => i < votes@.len() && votes@[i as int].0@ == k@,
            None => !has_option(tally_view(votes@), k@),
        },
{
    let mut i: usize = 0;
    while i < votes.len()
        invariant
            i <= votes@.len(),
            forall|j: int| 0 <= j < i ==> votes@[j].0@ != k@,
        decreases votes@.len() - i,
    {
        if votes[i].0 == *k {
            return Some(i);
        }
        i = i + 1;
    }
    proof {
        let t = tally_view(votes@);
        if has_option(t, k@) {
            let j = choose|j: int| 0 <= j < t.len() && t[j].0 == k@;
            assert(votes@[j].0@ == k@);
        }
    }
    None
}

/// Whether `k` is one of the given labels.
pub fn contains_label(options: &Vec<String>, k: &String) -> (r: bool)
    ensures
        r == labels(options@).contains(k@),
{
    let ghost l = labels(options@);
    let mut i: usize = 0;
    while i < options.len()
        invariant
            i <= options@.len(),
            l == labels(options@),
            forall|j: int| 0 <= j < i ==> l[j] != k@,
        decreases options@.len() - i,
    {
        if options[i] == *k {
            assert(l[i as int] == k@);
            return true;
        }
        i = i + 1;
    }
    false
}

/// Builds the tally of a new poll from its options.
pub fn new_tally(options: &Vec<String>) -> (r: Vec<(String, u32)>)
    ensures
        tally_view(r@) == zero_tally(labels(options@)),
{
    let mut votes: Vec<(String, u32)> = Vec::new();
    let mut i: usize = 0;
    while i < options.len()
        invariant
            i <= options@.len(),
            tally_view(votes@) == zero_tally(labels(options@).take(i as int)),
        decreases options@.len() - i,
    {
        let ghost pre = labels(options@).take(i as int);
        let ghost next = labels(options@).take(i + 1);
        assert(next.drop_last() =~= pre);
        assert(next.last() == options@[i as int]@);
        let found = find_option(&votes, &options[i]);
        match found {
            Some(j) => {
                assert(tally_view(votes@)[j as int].0 == next.last());
            },
            None => {
                let ghost before = votes@;
                let label = options[i].clone();
                votes.push((label, 0));
                assert(tally_view(votes@) =~= tally_view(before).push((next.last(), 0nat)));
            },
        }
        i = i + 1;
    }
    assert(labels(options@).take(options@.len() as int) =~= labels(options@));
    votes
}

/// Adds one vote to the entry at `i`.
pub fn bump_at(votes: &mut Vec<(String, u32)>, i: usize)
    requires
        keys_unique(tally_view(old(votes)@)),
        i < old(votes)@.len(),
        old(votes)@[i as int].1 < u32::MAX,
    ensures
        tally_view(final(votes)@) == bump(tally_view(old(votes)@), old(votes)@[i as int].0@),
{
    let ghost t = tally_view(votes@);
    let (label, count) = votes.remove(i);
    votes.insert(i, (label, count + 1));
    assert forall|j: int| 0 <= j < t.len() && j != i implies t[j].0 != t[i as int].0 by {}
    assert(tally_view(votes@) =~= bump(t, t[i as int].0));
}

/// Copies a tally.
pub fn copy_tally(votes: &Vec<(String, u32)>) -> (r: Vec<(String, u32)>)
    ensures
        tally_view(r@) == tally_view(votes@),
{
    let mut r: Vec<(String, u32)> = Vec::new();
    let mut i: usize = 0;
    while i < votes.len()
        invariant
            i <= votes@.len(),
            tally_view(r@) =~= tally_view(votes@).take(i as int),
        decreases votes@.len() - i,
    {
        let ghost before = r@;
        let label = votes[i].0.clone();
        r.push((label, votes[i].1));
        assert(tally_view(r@) =~= tally_view(before).push(tally_view(votes@)[i as int]));
        assert(tally_view(votes@).take(i + 1) =~= tally_view(votes@).take(i as int).push(
            tally_view(votes@)[i as int],
        ));
        i = i + 1;
    }
    r
}

} // verus!
