//! Meetings: every living player may vote a player out (or abstain); a
//! player is ejected when they lead the count with a strict majority of the
//! living players' votes.

use std::collections::BTreeMap;
use vstd::prelude::*;
use vstd::std_specs::iter::IteratorSpec;

verus! {

broadcast use vstd::std_specs::btree::group_btree_axioms, vstd::laws_cmp::group_laws_cmp;

/// A ballot: who voted, and for whom (`None` abstains).
pub type Ballot = (u128, Option<u128>);

/// A meeting in progress.
#[derive(Debug)]
pub struct Meeting {
    alive_player_count: u32,
    votes: BTreeMap<u128, Option<u128>>,
}

/// The voters who voted for `candidate`.
pub open spec fn voters_for(votes: Map<u128, Option<u128>>, candidate: u128) -> Set<u128> {
    votes.dom().filter(|v: u128| votes[v] == Some(candidate))
}

/// The number of votes for `candidate`.
pub open spec fn tally(votes: Map<u128, Option<u128>>, candidate: u128) -> nat {
    voters_for(votes, candidate).len()
}

/// `candidate` leads the count: they have votes, nobody has more, and every
/// candidate with as many has a larger identifier.
pub open spec fn leads(votes: Map<u128, Option<u128>>, candidate: u128) -> bool {
    &&& tally(votes, candidate) > 0
    &&& forall|other: u128| #[trigger] tally(votes, other) <= tally(votes, candidate)
    &&& forall|other: u128| other < candidate ==> #[trigger] tally(votes, other) < tally(votes, candidate)
}

/// The votes needed to be ejected: more than half of the living players.
pub open spec fn vote_threshold(alive_player_count: u32) -> nat {
    (alive_player_count / 2 + 1) as nat
}

/// The outcome of the votes: the leading candidate if they reach the
/// threshold, nobody otherwise.
pub open spec fn ejected(votes: Map<u128, Option<u128>>, alive_player_count: u32) -> Option<u128> {
    if exists|c: u128| leads(votes, c) && tally(votes, c) >= vote_threshold(alive_player_count) {
        Some(choose|c: u128| leads(votes, c) && tally(votes, c) >= vote_threshold(alive_player_count))
    } else {
        None
    }
}

/// The votes for `candidate` among the ballots `b`.
pub open spec fn count_in(b: Seq<Ballot>, candidate: u128) -> nat
    decreases b.len(),
{
    if b.len() == 0 {
        0
    } else {
        count_in(b.drop_last(), candidate) + if b.last().1 == Some(candidate) {
            1nat
        } else {
            0nat
        }
    }
}

/// `b` lists the votes: every voter exactly once, with their vote.
pub open spec fn lists(b: Seq<Ballot>, votes: Map<u128, Option<u128>>) -> bool {
    &&& forall|i: int, j: int| 0 <= i < j < b.len() ==> b[i].0 != b[j].0
    &&& forall|i: int| 0 <= i < b.len() ==> votes.contains_key(b[i].0) && votes[b[i].0] == b[i].1
    &&& forall|v: u128| votes.contains_key(v) ==> exists|i: int| 0 <= i < b.len() && b[i].0 == v
}

/// The ballots that a walk over a map of votes yields.
pub open spec fn ballots_of(s: Seq<(&u128, &Option<u128>)>) -> Seq<Ballot> {
    s.map_values(|kv: (&u128, &Option<u128>)| (*kv.0, *kv.1))
}

/// `counts` holds, for each candidate with votes among `b`, their number of
/// votes, and nothing else.
pub open spec fn counts_of(counts: Map<u128, usize>, b: Seq<Ballot>) -> bool {
    &&& forall|c: u128| #[trigger] counts.contains_key(c) <==> count_in(b, c) > 0
    &&& forall|c: u128| #[trigger] counts.contains_key(c) ==> counts[c] == count_in(b, c)
}

/// The voters for `candidate` among the ballots `b`.
spec fn voters_in(b: Seq<Ballot>, candidate: u128) -> Set<u128> {
    Set::new(|v: u128| exists|i: int| 0 <= i < b.len() && b[i].0 == v && b[i].1 == Some(candidate))
}

/// Keys of a `BTreeMap` keyed by player identifiers compare as numbers.
proof fn lemma_voters_ordered()
    ensures
        vstd::std_specs::btree::key_obeys_cmp_spec::<u128>(),
{
    assert(vstd::laws_cmp::obeys_cmp::<u128>());
}

/// Identifiers listed in increasing order are listed in increasing numeric order.
proof fn lemma_increasing(ks: Seq<u128>)
    requires
        vstd::std_specs::btree::increasing_seq(ks),
    ensures
        forall|i: int, j: int| 0 <= i < j < ks.len() ==> ks[i] < ks[j],
{
    assert forall|i: int, j: int| 0 <= i < j < ks.len() implies ks[i] < ks[j] by {
        assert(vstd::std_specs::cmp::OrdSpec::cmp_spec(&ks[i], &ks[j]) is Less);
    }
}

proof fn lemma_count_bounded(b: Seq<Ballot>, c: u128)
    ensures
        count_in(b, c) <= b.len(),
    decreases b.len(),
{
    if b.len() > 0 {
        lemma_count_bounded(b.drop_last(), c);
    }
}

/// Among ballots of distinct voters, the votes counted for `c` are the
/// voters for `c`.
proof fn lemma_count_is_voters(b: Seq<Ballot>, c: u128)
    requires
        forall|i: int, j: int| 0 <= i < j < b.len() ==> b[i].0 != b[j].0,
    ensures
        voters_in(b, c).finite(),
        voters_in(b, c).len() == count_in(b, c),
    decreases b.len(),
{
    if b.len() == 0 {
        assert(voters_in(b, c) =~= Set::<u128>::empty());
    } else {
        let p = b.drop_last();
        lemma_count_is_voters(p, c);
        let last = b.last();
        assert(!voters_in(p, c).contains(last.0)) by {
            if voters_in(p, c).contains(last.0) {
                let i = choose|i: int| 0 <= i < p.len() && p[i].0 == last.0 && p[i].1 == Some(c);
                assert(b[i].0 == b[b.len() - 1].0);
            }
        }
        if last.1 == Some(c) {
            assert(voters_in(b, c) =~= voters_in(p, c).insert(last.0)) by {
                assert forall|v: u128| voters_in(b, c).contains(v) implies voters_in(p, c).insert(last.0).contains(v) by {
                    let i = choose|i: int| 0 <= i < b.len() && b[i].0 == v && b[i].1 == Some(c);
                    if i < b.len() - 1 {
                        assert(p[i] == b[i]);
                    }
                }
                assert forall|v: u128| voters_in(p, c).contains(v) implies voters_in(b, c).contains(v) by {
                    let i = choose|i: int| 0 <= i < p.len() && p[i].0 == v && p[i].1 == Some(c);
                    assert(b[i] == p[i]);
                }
                assert(b[b.len() - 1] == last);
            }
        } else {
            assert(voters_in(b, c) =~= voters_in(p, c)) by {
                assert forall|v: u128| voters_in(b, c).contains(v) implies voters_in(p, c).contains(v) by {
                    let i = choose|i: int| 0 <= i < b.len() && b[i].0 == v && b[i].1 == Some(c);
                    if i < b.len() - 1 {
                        assert(p[i] == b[i]);
                    }
                }
                assert forall|v: u128| voters_in(p, c).contains(v) implies voters_in(b, c).contains(v) by {
                    let i = choose|i: int| 0 <= i < p.len() && p[i].0 == v && p[i].1 == Some(c);
                    assert(b[i] == p[i]);
                }
            }
        }
    }
}

/// Counting the votes for `c` along any listing of the votes gives their tally.
proof fn lemma_count_matches_tally(b: Seq<Ballot>, votes: Map<u128, Option<u128>>, c: u128)
    requires
        lists(b, votes),
    ensures
        count_in(b, c) == tally(votes, c),
{
    lemma_count_is_voters(b, c);
    assert(voters_in(b, c) =~= voters_for(votes, c)) by {
        assert forall|v: u128| voters_for(votes, c).contains(v) implies voters_in(b, c).contains(v) by {
            let i = choose|i: int| 0 <= i < b.len() && b[i].0 == v;
            assert(b[i].1 == votes[v]);
        }
    }
}

/// There is at most one leading candidate.
pub proof fn lemma_leader_unique(votes: Map<u128, Option<u128>>, c1: u128, c2: u128)
    requires
        leads(votes, c1),
        leads(votes, c2),
    ensures
        c1 == c2,
{
    if c1 < c2 {
        assert(tally(votes, c1) < tally(votes, c2));
        assert(tally(votes, c2) <= tally(votes, c1));
    } else if c2 < c1 {
        assert(tally(votes, c2) < tally(votes, c1));
        assert(tally(votes, c1) <= tally(votes, c2));
    }
}

impl Meeting {
    /// The number of living players when the meeting began.
    pub closed spec fn alive_count(&self) -> u32 {
        self.alive_player_count
    }

    /// The votes cast so far, by voter.
    pub closed spec fn votes(&self) -> Map<u128, Option<u128>> {
        self.votes@
    }

    /// A meeting among `alive_player_count` living players, with no votes yet.
    pub fn new(alive_player_count: u32) -> (r: Self)
        ensures
            r.alive_count() == alive_player_count,
            r.votes() == Map::<u128, Option<u128>>::empty(),
    {
        Meeting { alive_player_count, votes: BTreeMap::new() }
    }

    /// Records `vote_by`'s vote for `vote_for`, replacing any earlier vote of
    /// theirs.
    pub fn add_vote(&mut self, vote_by: u128, vote_for: Option<u128>)
        ensures
            final(self).alive_count() == old(self).alive_count(),
            final(self).votes() == old(self).votes().insert(vote_by, vote_for),
    {
        proof {
            lemma_voters_ordered();
        }
        self.votes.insert(vote_by, vote_for);
    }

    /// The number of votes cast.
    pub fn ballot_count(&self) -> (r: usize)
        ensures
            r == self.votes().len(),
    {
        proof {
            lemma_voters_ordered();
        }
        self.votes.len()
    }

    /// Whether every living player has voted.
    pub fn all_players_voted(&self) -> (r: bool)
        requires
            self.votes().len() <= u32::MAX,
        ensures
            r == (self.votes().len() == self.alive_count() as nat),
    {
        proof {
            lemma_voters_ordered();
        }
        self.votes.len() as u32 == self.alive_player_count
    }

    /// The player voted out: the one who leads the count, if their votes
    /// reach a strict majority of the living players; nobody otherwise.
    pub fn person_voted_out(&self) -> (r: Option<u128>)
        ensures
            r == ejected(self.votes(), self.alive_count()),
            r matches Some(c) ==> leads(self.votes(), c) && tally(self.votes(), c) >= vote_threshold(
                self.alive_count(),
            ),
            r is None ==> forall|c: u128|
                leads(self.votes(), c) ==> tally(self.votes(), c) < vote_threshold(self.alive_count()),
    {
        proof {
            lemma_voters_ordered();
        }
        let ghost m = self.votes@;
        let threshold = threshold_of(self.alive_player_count);
        let mut votes_for_each: BTreeMap<u128, usize> = BTreeMap::new();
        let n = self.votes.len();
        let ghost mut listed: Seq<Ballot> = Seq::empty();
        let votes_iter = self.votes.iter();
        assert(lists(ballots_of(votes_iter.remaining()), m)) by {
            let s = votes_iter.remaining();
            let b = ballots_of(s);
            assert forall|i: int, j: int| 0 <= i < j < b.len() implies b[i].0 != b[j].0 by {
                if b[i].0 == b[j].0 {
                    assert(*s[i].1 == m[*s[i].0]);
                    assert(*s[j].1 == m[*s[j].0]);
                    assert(s[i] == s[j]);
                    assert(s.no_duplicates());
                }
            }
            assert forall|v: u128| m.contains_key(v) implies exists|i: int| 0 <= i < b.len() && b[i].0 == v by {
                assert(s.contains((&v, &m[v])));
                let i = choose|i: int| 0 <= i < s.len() && s[i] == (&v, &m[v]);
                assert(b[i].0 == v);
            }
        }
        for vote in it: votes_iter
            invariant
                m == self.votes@,
                n == m.len(),
                it.seq().len() == n,
                lists(ballots_of(it.seq()), m),
                listed.len() == it.index(),
                forall|i: int| 0 <= i < it.index() ==> listed[i] == (*it.seq()[i].0, *it.seq()[i].1),
                counts_of(votes_for_each@, listed),
                it.index() == it.seq().len() ==> lists(listed, m),
        {
            let ghost prev = listed;
            proof {
                listed = listed.push((*vote.0, *vote.1));
                assert(listed.drop_last() =~= prev);
            }
            assert(it.index() + 1 == it.seq().len() ==> listed =~= ballots_of(it.seq()));
            let vote_for_option = vote.1;
            if let Some(vote_for) = vote_for_option {
                match votes_for_each.get(vote_for) {
                    Some(votes) => {
                        proof {
                            lemma_count_bounded(prev, *vote_for);
                        }
                        let updated = *votes + 1;
                        votes_for_each.insert(*vote_for, updated);
                    },
                    None => {
                        votes_for_each.insert(*vote_for, 1);
                    },
                }
            }
        }
        proof {
            assert forall|c: u128| #[trigger] tally(m, c) == count_in(listed, c) by {
                lemma_count_matches_tally(listed, m, c);
            }
        }
        let ghost counts = votes_for_each@;
        let k = votes_for_each.len();
        let mut highest: Option<(u128, usize)> = None;
        let ghost mut at: int = 0;
        let counts_iter = votes_for_each.iter();
        proof {
            lemma_increasing(counts_iter.remaining().map_values(|kv: (&u128, &usize)| *kv.0));
        }
        assert({
            let s = counts_iter.remaining();
            &&& forall|i: int, j: int| 0 <= i < j < s.len() ==> *s[i].0 < *s[j].0
            &&& forall|c: u128| counts.contains_key(c) ==> exists|i: int| 0 <= i < s.len() && *s[i].0 == c
        }) by {
            let s = counts_iter.remaining();
            let ks = s.map_values(|kv: (&u128, &usize)| *kv.0);
            assert forall|i: int, j: int| 0 <= i < j < s.len() implies *s[i].0 < *s[j].0 by {
                assert(ks[i] == *s[i].0);
                assert(ks[j] == *s[j].0);
            }
            assert forall|c: u128| counts.contains_key(c) implies exists|i: int| 0 <= i < s.len() && *s[i].0 == c by {
                assert(s.contains((&c, &counts[c])));
                let i = choose|i: int| 0 <= i < s.len() && s[i] == (&c, &counts[c]);
                assert(*s[i].0 == c);
            }
        }
        for item in it2: counts_iter
            invariant
                counts == votes_for_each@,
                k == counts.len(),
                it2.seq().len() == k,
                forall|i: int, j: int| 0 <= i < j < it2.seq().len() ==> *it2.seq()[i].0 < *it2.seq()[j].0,
                forall|i: int|
                    0 <= i < it2.seq().len() ==> counts.contains_key(*it2.seq()[i].0) && counts[*it2.seq()[i].0]
                        == *it2.seq()[i].1,
                forall|c: u128| counts.contains_key(c) ==> exists|i: int| 0 <= i < it2.seq().len() && *it2.seq()[i].0 == c,
                highest is None <==> it2.index() == 0,
                it2.index() == it2.seq().len() && highest is None ==> k == 0,
                highest matches Some(h) ==> {
                    &&& 0 <= at < it2.index()
                    &&& *it2.seq()[at].0 == h.0
                    &&& *it2.seq()[at].1 == h.1
                    &&& counts.contains_key(h.0)
                    &&& counts[h.0] == h.1
                    &&& forall|j: int|
                        #![trigger it2.seq()[j]]
                        0 <= j < it2.index() ==> *it2.seq()[j].1 <= h.1 && (*it2.seq()[j].0 < h.0 ==> *it2.seq()[j].1 < h.1)
                },
                highest matches Some(h) ==> (it2.index() == it2.seq().len() ==> forall|c: u128|
                    #[trigger] counts.contains_key(c) ==> counts[c] <= h.1 && (c < h.0 ==> counts[c] < h.1)),
        {
            match highest {
                None => {
                    highest = Some((*item.0, *item.1));
                    proof {
                        at = it2.index();
                    }
                },
                Some((_, highest_votes)) => {
                    if *item.1 > highest_votes {
                        highest = Some((*item.0, *item.1));
                        proof {
                            at = it2.index();
                        }
                    }
                },
            }
        }
        let r = match highest {
            None => {
                proof {
                    assert forall|c: u128| !leads(m, c) by {
                        if counts.contains_key(c) {
                            assert(counts.dom().contains(c));
                            assert(counts.dom().len() > 0);
                        }
                    }
                }
                None
            },
            Some((candidate, candidate_votes)) => {
                proof {
                    assert(candidate_votes == tally(m, candidate));
                    assert forall|other: u128|
                        #[trigger] tally(m, other) <= tally(m, candidate) && (other < candidate ==> tally(m, other)
                            < tally(m, candidate)) by {
                        if tally(m, other) > 0 {
                            assert(counts.contains_key(other));
                        }
                    }
                    assert(leads(m, candidate));
                }
                if candidate_votes >= threshold {
                    Some(candidate)
                } else {
                    None
                }
            },
        };
        proof {
            if r is None {
                assert forall|c: u128| leads(m, c) implies tally(m, c) < vote_threshold(self.alive_player_count) by {
                    if let Some(h) = highest {
                        lemma_leader_unique(m, c, h.0);
                    }
                }
            }
            if let Some(c) = r {
                let c2 = choose|c2: u128| leads(m, c2) && tally(m, c2) >= vote_threshold(self.alive_player_count);
                lemma_leader_unique(m, c, c2);
            }
        }
        r
    }
}

/// The number of votes needed to be ejected among `alive_player_count`
/// living players.
fn threshold_of(alive_player_count: u32) -> (r: usize)
    ensures
        r == vote_threshold(alive_player_count),
{
    (alive_player_count / 2) as usize + 1
}

/// Whoever a meeting votes out received more votes than half of the living
/// players, and led the count.
pub proof fn lemma_ejected_has_majority(m: Meeting, c: u128)
    requires
        ejected(m.votes(), m.alive_count()) == Some(c),
    ensures
        leads(m.votes(), c),
        2 * tally(m.votes(), c) > m.alive_count(),
{
    let votes = m.votes();
    let c2 = choose|c2: u128| leads(votes, c2) && tally(votes, c2) >= vote_threshold(m.alive_count());
    assert(c2 == c);
}

/// Two different candidates never share a voter, so their tallies add up
/// to no more than the number of voters.
proof fn lemma_tally_pair_bounded(votes: Map<u128, Option<u128>>, c1: u128, c2: u128)
    requires
        votes.dom().finite(),
        c1 != c2,
    ensures
        tally(votes, c1) + tally(votes, c2) <= votes.len(),
{
    let a = voters_for(votes, c1);
    let b = voters_for(votes, c2);
    votes.dom().lemma_len_filter(|v: u128| votes[v] == Some(c1));
    votes.dom().lemma_len_filter(|v: u128| votes[v] == Some(c2));
    assert(a.disjoint(b));
    vstd::set_lib::lemma_set_disjoint_lens(a, b);
    vstd::set_lib::lemma_len_subset(a + b, votes.dom());
}

/// With no more voters than living players, at most one candidate can
/// reach the votes needed to be ejected.
pub proof fn lemma_threshold_reached_by_one(m: Meeting, c1: u128, c2: u128)
    requires
        m.votes().len() <= m.alive_count(),
        tally(m.votes(), c1) >= vote_threshold(m.alive_count()),
        tally(m.votes(), c2) >= vote_threshold(m.alive_count()),
    ensures
        c1 == c2,
{
    assert(m.votes@.dom().finite());
    if c1 != c2 {
        lemma_tally_pair_bounded(m.votes(), c1, c2);
    }
}

/// A candidate who reaches the votes needed to be ejected, among no more
/// voters than living players, is the one voted out.
pub proof fn lemma_threshold_ejects(m: Meeting, c: u128)
    requires
        m.votes().len() <= m.alive_count(),
        tally(m.votes(), c) >= vote_threshold(m.alive_count()),
    ensures
        ejected(m.votes(), m.alive_count()) == Some(c),
{
    let votes = m.votes();
    assert(m.votes@.dom().finite());
    assert forall|other: u128| #[trigger] tally(votes, other) <= tally(votes, c) && (other < c ==> tally(votes, other) < tally(votes, c)) by {
        if other != c {
            lemma_tally_pair_bounded(votes, c, other);
        }
    }
    assert(leads(votes, c));
    let c2 = choose|c2: u128| leads(votes, c2) && tally(votes, c2) >= vote_threshold(m.alive_count());
    lemma_leader_unique(votes, c, c2);
}

/// Among no more voters than living players, a candidate is voted out
/// exactly when their votes are a strict majority of the living players.
pub proof fn lemma_majority_ejects(m: Meeting, c: u128)
    requires
        m.votes().len() <= m.alive_count(),
    ensures
        ejected(m.votes(), m.alive_count()) == Some(c) <==> 2 * tally(m.votes(), c) > m.alive_count(),
{
    if 2 * tally(m.votes(), c) > m.alive_count() {
        assert(tally(m.votes(), c) >= vote_threshold(m.alive_count()));
        lemma_threshold_ejects(m, c);
    }
    if ejected(m.votes(), m.alive_count()) == Some(c) {
        lemma_ejected_has_majority(m, c);
    }
}

} // verus!
